//! Reading UTF-16 in pieces.
//!
//! A reader takes the bytes of a UTF-16 stream as they arrive, in pieces of
//! any size, and gives out the UTF-8 bytes of the text. What cannot be
//! decoded yet is held back: a first byte of the mark, the first byte of a
//! code unit, a high surrogate whose low surrogate has not arrived.

use crate::bytes::{
    bytes_units, lemma_bytes_units_concat, lemma_bytes_units_index, lemma_pair_round_trip,
    push_all, push_bytes_units, push_unit, read_unit, unit_bytes, unit_of,
};
use crate::codec::{decoded, opens_with};
use crate::error::{DecodeUtf16Error, ErrorKind};
use crate::units::{
    is_high_surrogate, lemma_units_valid, lemma_valid_concat, lemma_valid_last,
    lemma_valid_pairs, lemma_valid_split, utf16_chars, valid_utf16,
};
use crate::utf8::{lemma_encode_utf8_concat, lemma_next_boundary};
use crate::variant::Utf16;
use vstd::pervasive::unreached;
use vstd::prelude::*;
use vstd::slice::{slice_subrange, slice_to_vec};
use vstd::string::{StringExecFns, StringSliceAdditionalSpecFns};
use vstd::utf8::{
    encode_utf8, encode_utf8_valid_utf8, is_char_boundary, is_char_boundary_start_end_of_seq,
    length_of_first_scalar, valid_utf8, valid_utf8_split,
};

verus! {

/// How many of the leading bytes of `body` can be decoded without knowing
/// what follows: those of its whole code units, less the last unit where
/// that is a high surrogate.
pub open spec fn ripe(big_endian: bool, body: Seq<u8>) -> int {
    let whole = body.len() - body.len() % 2;
    if whole >= 2 && is_high_surrogate(unit_of(big_endian, body[whole - 2], body[whole - 1])) {
        whole - 2
    } else {
        whole
    }
}

/// One step of decoding on bytes that hold no mark: the ripe part is
/// decoded to UTF-8 bytes, the rest is held back. The result is what is held
/// back and what was decoded.
pub open spec fn step(big_endian: bool, body: Seq<u8>) -> Result<(Seq<u8>, Seq<u8>), ErrorKind> {
    let k = ripe(big_endian, body);
    let units = bytes_units(big_endian, body.take(k));
    if valid_utf16(units) {
        Ok((body.skip(k), encode_utf8(utf16_chars(units))))
    } else {
        Err(ErrorKind::Decode)
    }
}

/// What a reader knows between two pieces of input.
#[verifier::ext_equal]
pub struct ReaderState {
    /// The wire form of the stream.
    pub variant: Utf16,
    /// Whether the mark is still to come.
    pub awaiting_mark: bool,
    /// The bytes taken in and not yet decoded.
    pub held: Seq<u8>,
}

impl ReaderState {
    /// The state at the start of a stream.
    pub open spec fn start(variant: Utf16) -> ReaderState {
        ReaderState { variant, awaiting_mark: variant.has_bom(), held: Seq::<u8>::empty() }
    }

    /// The state right after a seek to a place behind the start.
    pub open spec fn midway(variant: Utf16) -> ReaderState {
        ReaderState { variant, awaiting_mark: false, held: Seq::<u8>::empty() }
    }

    /// Nothing is held back that could have been decoded.
    pub open spec fn wf(self) -> bool {
        if self.awaiting_mark {
            self.variant.has_bom() && self.held.len() < 2
        } else {
            ripe(self.variant.big_endian(), self.held) == 0
        }
    }

    /// What taking in `raw` leads to: the next state and the UTF-8 bytes
    /// decoded on the way, or the kind of failure. A mark that is awaited is
    /// checked as soon as two bytes are there.
    pub open spec fn fed(self, raw: Seq<u8>) -> Result<(ReaderState, Seq<u8>), ErrorKind> {
        let buf = self.held + raw;
        if self.awaiting_mark && buf.len() < 2 {
            Ok((ReaderState { held: buf, ..self }, Seq::<u8>::empty()))
        } else if self.awaiting_mark && !opens_with(buf, self.variant.mark()) {
            Err(ErrorKind::BomMismatch)
        } else {
            let body = if self.awaiting_mark {
                buf.skip(2)
            } else {
                buf
            };
            ReaderState::past_mark(self.variant, body)
        }
    }

    /// What decoding `body`, which holds no mark, leads to: the state that
    /// holds back what is not ripe, and the UTF-8 bytes of what is.
    pub open spec fn past_mark(variant: Utf16, body: Seq<u8>) -> Result<
        (ReaderState, Seq<u8>),
        ErrorKind,
    > {
        match step(variant.big_endian(), body) {
            Ok((held, out)) => Ok((ReaderState { variant, awaiting_mark: false, held }, out)),
            Err(kind) => Err(kind),
        }
    }

    /// That taking in `a` and then `b` is taking in the two joined: the same
    /// state is reached, and what is decoded is what the two steps decode,
    /// joined; a failure of either step is a failure of the one.
    pub open spec fn twice(self, a: Seq<u8>, b: Seq<u8>) -> bool {
        match self.fed(a) {
            Ok((next, out)) => match next.fed(b) {
                Ok((last, more)) => self.fed(a + b) == Ok::<(ReaderState, Seq<u8>), ErrorKind>(
                    (last, out + more),
                ),
                Err(kind) => self.fed(a + b) == Err::<(ReaderState, Seq<u8>), ErrorKind>(kind),
            },
            Err(kind) => self.fed(a + b) == Err::<(ReaderState, Seq<u8>), ErrorKind>(kind),
        }
    }

    /// Whether the stream may end here. It may not while a byte of a code
    /// unit, the mark or the second half of a surrogate pair is outstanding.
    pub open spec fn ended(self) -> Result<(), ErrorKind> {
        if self.held.len() % 2 != 0 {
            Err(ErrorKind::BadLength)
        } else if self.awaiting_mark {
            Err(ErrorKind::BomMismatch)
        } else if self.held.len() > 0 {
            Err(ErrorKind::Decode)
        } else {
            Ok(())
        }
    }

    /// What taking in the pieces of `chunks` one after the other leads to:
    /// the last state and all that was decoded, or the first failure.
    pub open spec fn fed_all(self, chunks: Seq<Seq<u8>>) -> Result<(ReaderState, Seq<u8>), ErrorKind>
        decreases chunks.len(),
    {
        if chunks.len() == 0 {
            Ok((self, Seq::<u8>::empty()))
        } else {
            match self.fed(chunks.first()) {
                Ok((next, out)) => match next.fed_all(chunks.drop_first()) {
                    Ok((last, more)) => Ok((last, out + more)),
                    Err(kind) => Err(kind),
                },
                Err(kind) => Err(kind),
            }
        }
    }
}

/// What a reader gives out in all when a stream arrives in the pieces of
/// `chunks` and then ends.
pub open spec fn read_all(variant: Utf16, chunks: Seq<Seq<u8>>) -> Result<Seq<u8>, ErrorKind> {
    match ReaderState::start(variant).fed_all(chunks) {
        Ok((last, out)) => match last.ended() {
            Ok(()) => Ok(out),
            Err(kind) => Err(kind),
        },
        Err(kind) => Err(kind),
    }
}

/// The ripe part is a whole number of code units, and what lies behind it
/// holds nothing ripe.
pub proof fn lemma_ripe(big_endian: bool, body: Seq<u8>)
    ensures
        0 <= ripe(big_endian, body) <= body.len(),
        ripe(big_endian, body) % 2 == 0,
        body.len() - ripe(big_endian, body) < 4,
        ripe(big_endian, body.skip(ripe(big_endian, body))) == 0,
{
    let k = ripe(big_endian, body);
    let rest = body.skip(k);
    let whole = body.len() - body.len() % 2;
    if k < whole {
        assert(rest[0] == body[whole - 2]);
        assert(rest[1] == body[whole - 1]);
    }
}

/// The last unit of a ripe part that is well formed is no high surrogate, so
/// that the ripe part of it with more bytes behind it only grows.
proof fn lemma_ripe_grows(big_endian: bool, body: Seq<u8>, more: Seq<u8>)
    requires
        valid_utf16(bytes_units(big_endian, body.take(ripe(big_endian, body)))),
    ensures
        ripe(big_endian, body + more) == ripe(big_endian, body) + ripe(
            big_endian,
            body.skip(ripe(big_endian, body)) + more,
        ),
{
    let k1 = ripe(big_endian, body);
    let x = body.take(k1);
    let y = body.skip(k1) + more;
    let z = body + more;
    lemma_ripe(big_endian, body);
    assert(z =~= x + y);
    let whole_y = y.len() - y.len() % 2;
    let whole_z = z.len() - z.len() % 2;
    assert(whole_z == k1 + whole_y);
    if whole_y >= 2 {
        assert(z[whole_z - 2] == y[whole_y - 2]);
        assert(z[whole_z - 1] == y[whole_y - 1]);
    } else if k1 >= 2 {
        let u1 = bytes_units(big_endian, x);
        lemma_bytes_units_index(big_endian, x);
        lemma_valid_last(u1);
        assert(u1.last() == u1[k1 / 2 - 1]);
        assert(x[2 * (k1 / 2 - 1)] == z[whole_z - 2]);
        assert(x[2 * (k1 / 2 - 1) + 1] == z[whole_z - 1]);
    }
}

/// Two steps in a row are one step on the bytes joined: the same bytes are
/// held back at the end, and what the one step decodes is what the two
/// decode, joined. Where the second step fails, the one step fails alike.
pub proof fn lemma_step_twice(big_endian: bool, body: Seq<u8>, more: Seq<u8>)
    requires
        step(big_endian, body) is Ok,
    ensures
        ({
            let (held, out) = step(big_endian, body)->Ok_0;
            match step(big_endian, held + more) {
                Ok((last, rest)) => step(big_endian, body + more) == Ok::<
                    (Seq<u8>, Seq<u8>),
                    ErrorKind,
                >((last, out + rest)),
                Err(kind) => step(big_endian, body + more) == Err::<(Seq<u8>, Seq<u8>), ErrorKind>(
                    kind,
                ),
            }
        }),
{
    let k1 = ripe(big_endian, body);
    let x = body.take(k1);
    let y = body.skip(k1) + more;
    let z = body + more;
    let k2 = ripe(big_endian, y);
    let k = ripe(big_endian, z);
    let u1 = bytes_units(big_endian, x);
    let u2 = bytes_units(big_endian, y.take(k2));
    let u = bytes_units(big_endian, z.take(k));
    lemma_ripe(big_endian, body);
    lemma_ripe(big_endian, y);
    lemma_ripe_grows(big_endian, body, more);
    assert(z =~= x + y);
    assert(z.take(k) =~= x + y.take(k2));
    assert(z.skip(k) =~= y.skip(k2));
    lemma_bytes_units_concat(big_endian, x, y.take(k2));
    assert(u == u1 + u2);
    if u1.len() > 0 {
        lemma_valid_last(u1);
    }
    if valid_utf16(u2) {
        lemma_valid_concat(u1, u2);
        lemma_encode_utf8_concat(utf16_chars(u1), utf16_chars(u2));
    } else if valid_utf16(u1 + u2) {
        lemma_valid_split(u1, u2);
    }
}

/// A step that fails keeps failing when more bytes follow.
pub proof fn lemma_step_stays_failed(big_endian: bool, body: Seq<u8>, more: Seq<u8>)
    requires
        step(big_endian, body) is Err,
    ensures
        step(big_endian, body + more) == Err::<(Seq<u8>, Seq<u8>), ErrorKind>(ErrorKind::Decode),
{
    let k1 = ripe(big_endian, body);
    let z = body + more;
    let k = ripe(big_endian, z);
    let x = body.take(k1);
    let u1 = bytes_units(big_endian, x);
    let u = bytes_units(big_endian, z.take(k));
    lemma_ripe(big_endian, body);
    lemma_ripe(big_endian, z);
    let whole1 = body.len() - body.len() % 2;
    let whole = z.len() - z.len() % 2;
    assert(whole >= whole1);
    if whole == whole1 {
        if whole >= 2 {
            assert(z[whole - 2] == body[whole1 - 2]);
            assert(z[whole - 1] == body[whole1 - 1]);
        }
        assert(k == k1);
        assert(z.take(k) =~= x);
    } else {
        assert(whole >= whole1 + 2);
        assert(k >= k1);
        let w = z.subrange(k1, k);
        let uw = bytes_units(big_endian, w);
        assert(z.take(k) =~= x + w);
        lemma_bytes_units_concat(big_endian, x, w);
        assert(u == u1 + uw);
        lemma_bytes_units_index(big_endian, x);
        lemma_bytes_units_index(big_endian, w);
        if valid_utf16(u1 + uw) {
            assert(u1.len() > 0);
            let n = u1.len() as int;
            if is_high_surrogate(u1.last()) {
                assert(u1.last() == unit_of(big_endian, x[k1 - 2], x[k1 - 1]));
                assert(x[k1 - 2] == body[k1 - 2]);
                assert(x[k1 - 1] == body[k1 - 1]);
                assert(k1 < whole1);
                if uw.len() == 0 {
                    assert(u1 + uw =~= u1);
                } else {
                    lemma_valid_pairs(u1 + uw, n - 1);
                    assert((u1 + uw)[n - 1] == u1.last());
                    assert((u1 + uw)[n] == uw[0]);
                    assert(uw[0] == unit_of(big_endian, w[0], w[1]));
                    assert(w[0] == body[whole1 - 2]);
                    assert(w[1] == body[whole1 - 1]);
                }
            } else {
                lemma_valid_split(u1, uw);
            }
        }
    }
}

/// A step on all the bytes behind the mark tells whether their code units
/// are well formed: it fails, or holds back a high surrogate, exactly where
/// they are not, and else decodes all of them.
pub proof fn lemma_step_whole(big_endian: bool, body: Seq<u8>)
    requires
        body.len() % 2 == 0,
    ensures
        ({
            let all = bytes_units(big_endian, body);
            match step(big_endian, body) {
                Ok((held, out)) => if held.len() == 0 {
                    valid_utf16(all) && out == encode_utf8(utf16_chars(all))
                } else {
                    held.len() == 2 && !valid_utf16(all)
                },
                Err(_) => !valid_utf16(all),
            }
        }),
{
    let all = bytes_units(big_endian, body);
    let k = ripe(big_endian, body);
    lemma_ripe(big_endian, body);
    lemma_bytes_units_index(big_endian, body);
    match step(big_endian, body) {
        Ok((held, out)) => {
            if held.len() == 0 {
                assert(body.take(k) =~= body);
            } else {
                if valid_utf16(all) {
                    lemma_valid_last(all);
                    assert(all.last() == all[body.len() / 2 - 1]);
                }
            }
        },
        Err(_) => {
            let more = seq![0u8, 0u8];
            let zero = bytes_units(big_endian, more);
            lemma_step_stays_failed(big_endian, body, more);
            let longer = body + more;
            assert(ripe(big_endian, longer) == longer.len());
            assert(longer.take(longer.len() as int) =~= longer);
            lemma_bytes_units_concat(big_endian, body, more);
            lemma_bytes_units_index(big_endian, more);
            assert(zero =~= seq![0u16]);
            assert(valid_utf16(zero)) by {
                reveal_with_fuel(valid_utf16, 2);
            }
            if valid_utf16(all) {
                lemma_valid_concat(all, zero);
            }
        },
    }
}

impl ReaderState {
    /// Taking in bytes keeps the state well formed.
    pub proof fn lemma_fed_wf(self, raw: Seq<u8>)
        requires
            self.wf(),
        ensures
            self.fed(raw) matches Ok((next, _)) ==> next.wf() && next.variant == self.variant,
    {
        let buf = self.held + raw;
        if !(self.awaiting_mark && buf.len() < 2) {
            let body = if self.awaiting_mark {
                buf.skip(2)
            } else {
                buf
            };
            lemma_ripe(self.variant.big_endian(), body);
        }
    }

    /// Taking in nothing changes nothing.
    pub proof fn lemma_fed_nothing(self)
        requires
            self.wf(),
        ensures
            self.fed(Seq::<u8>::empty()) == Ok::<(ReaderState, Seq<u8>), ErrorKind>(
                (self, Seq::<u8>::empty()),
            ),
    {
        let buf = self.held + Seq::<u8>::empty();
        assert(buf =~= self.held);
        if self.awaiting_mark {
            assert(ReaderState { held: buf, ..self } =~= self);
        } else {
            let big_endian = self.variant.big_endian();
            let units = bytes_units(big_endian, buf.take(0));
            lemma_bytes_units_index(big_endian, buf.take(0));
            assert(units =~= Seq::<u16>::empty());
            assert(utf16_chars(units) =~= Seq::<char>::empty());
            assert(encode_utf8(Seq::<char>::empty()) =~= Seq::<u8>::empty());
            assert(buf.skip(0) =~= self.held);
            assert(ReaderState {
                variant: self.variant,
                awaiting_mark: false,
                held: buf.skip(0),
            } =~= self);
        }
    }

    /// Decoding behind the mark, then taking in more, is decoding all of it
    /// behind the mark.
    proof fn lemma_past_mark_twice(variant: Utf16, body: Seq<u8>, more: Seq<u8>)
        ensures
            match ReaderState::past_mark(variant, body) {
                Ok((next, out)) => match next.fed(more) {
                    Ok((last, rest)) => ReaderState::past_mark(variant, body + more) == Ok::<
                        (ReaderState, Seq<u8>),
                        ErrorKind,
                    >((last, out + rest)),
                    Err(kind) => ReaderState::past_mark(variant, body + more) == Err::<
                        (ReaderState, Seq<u8>),
                        ErrorKind,
                    >(kind),
                },
                Err(kind) => ReaderState::past_mark(variant, body + more) == Err::<
                    (ReaderState, Seq<u8>),
                    ErrorKind,
                >(kind),
            },
    {
        let big_endian = variant.big_endian();
        match step(big_endian, body) {
            Ok((held, out)) => {
                lemma_step_twice(big_endian, body, more);
            },
            Err(_) => {
                lemma_step_stays_failed(big_endian, body, more);
            },
        }
    }

    /// Two pieces, the first of which leaves the mark unfinished.
    proof fn lemma_fed_twice_short(self, a: Seq<u8>, b: Seq<u8>)
        requires
            self.awaiting_mark,
            (self.held + a).len() < 2,
        ensures
            self.twice(a, b),
    {
        let buf = self.held + a;
        let next = ReaderState { held: buf, ..self };
        assert(next.held + b =~= self.held + (a + b));
        match next.fed(b) {
            Ok((last, more)) => {
                assert(Seq::<u8>::empty() + more =~= more);
            },
            Err(_) => {},
        }
    }

    /// Two pieces, the first of which holds the end of the mark.
    proof fn lemma_fed_twice_mark(self, a: Seq<u8>, b: Seq<u8>)
        requires
            self.awaiting_mark,
            (self.held + a).len() >= 2,
        ensures
            self.twice(a, b),
    {
        let first = self.held + a;
        let both = self.held + (a + b);
        assert(both =~= first + b);
        assert(both.take(2) =~= first.take(2));
        assert(both.skip(2) =~= first.skip(2) + b);
        if opens_with(first, self.variant.mark()) {
            ReaderState::lemma_past_mark_twice(self.variant, first.skip(2), b);
        }
    }

    /// Two pieces behind the mark.
    proof fn lemma_fed_twice_plain(self, a: Seq<u8>, b: Seq<u8>)
        requires
            !self.awaiting_mark,
        ensures
            self.twice(a, b),
    {
        assert(self.held + (a + b) =~= (self.held + a) + b);
        ReaderState::lemma_past_mark_twice(self.variant, self.held + a, b);
    }

    /// Taking in two pieces one after the other is taking in the two joined:
    /// the same state is reached, and what is decoded is what the two steps
    /// decode, joined. A failure of either step is a failure of the one.
    pub proof fn lemma_fed_twice(self, a: Seq<u8>, b: Seq<u8>)
        ensures
            self.twice(a, b),
    {
        if !self.awaiting_mark {
            self.lemma_fed_twice_plain(a, b);
        } else if (self.held + a).len() < 2 {
            self.lemma_fed_twice_short(a, b);
        } else {
            self.lemma_fed_twice_mark(a, b);
        }
    }

    /// Taking in a stream piece by piece is taking it in whole.
    pub proof fn lemma_fed_all(self, chunks: Seq<Seq<u8>>)
        requires
            self.wf(),
        ensures
            self.fed_all(chunks) == self.fed(chunks.flatten()),
        decreases chunks.len(),
    {
        if chunks.len() == 0 {
            self.lemma_fed_nothing();
        } else {
            let rest = chunks.drop_first();
            self.lemma_fed_twice(chunks.first(), rest.flatten());
            self.lemma_fed_wf(chunks.first());
            match self.fed(chunks.first()) {
                Ok((next, out)) => {
                    next.lemma_fed_all(rest);
                },
                Err(_) => {},
            }
        }
    }
}

/// A whole stream taken in at once: where it decodes, all of its text comes
/// out and the stream may end; where it does not, taking it in fails or the
/// stream may not end, and for the reason for which decoding fails.
pub proof fn lemma_fed_whole(variant: Utf16, payload: Seq<u8>)
    ensures
        match decoded(variant, payload) {
            Ok(text) => ReaderState::start(variant).fed(payload) == Ok::<
                (ReaderState, Seq<u8>),
                ErrorKind,
            >((ReaderState::midway(variant), encode_utf8(text))),
            Err(kind) => match ReaderState::start(variant).fed(payload) {
                Ok((last, _)) => last.ended() == Err::<(), ErrorKind>(kind),
                Err(_) => true,
            },
        },
{
    let big_endian = variant.big_endian();
    let start = ReaderState::start(variant);
    let buf = start.held + payload;
    assert(buf =~= payload);
    if variant.has_bom() && payload.len() < 2 {
    } else {
        let n = variant.prefix().len() as int;
        let body = payload.skip(n);
        if variant.has_bom() {
            assert(variant.prefix() == variant.mark());
        } else {
            assert(payload.take(0) =~= variant.prefix());
            assert(body =~= payload);
        }
        if opens_with(payload, variant.prefix()) {
            lemma_ripe(big_endian, body);
            if payload.len() % 2 == 0 {
                lemma_step_whole(big_endian, body);
                match step(big_endian, body) {
                    Ok((held, out)) => {
                        if held.len() == 0 {
                            assert(ReaderState { variant, awaiting_mark: false, held }
                                =~= ReaderState::midway(variant));
                        }
                    },
                    Err(_) => {},
                }
            }
        }
    }
}

/// Whole characters only: what a reader decodes from a piece of input is
/// valid UTF-8 by itself, wherever the piece ends. A code unit or a
/// surrogate pair that the piece cuts in two gives nothing until its rest
/// has arrived.
pub proof fn law_output_is_utf8(state: ReaderState, raw: Seq<u8>)
    ensures
        state.fed(raw) matches Ok((_, out)) ==> valid_utf8(out),
{
    let buf = state.held + raw;
    if state.awaiting_mark && buf.len() < 2 {
        assert(valid_utf8(Seq::<u8>::empty()));
    } else {
        let body = if state.awaiting_mark {
            buf.skip(2)
        } else {
            buf
        };
        let big_endian = state.variant.big_endian();
        let units = bytes_units(big_endian, body.take(ripe(big_endian, body)));
        encode_utf8_valid_utf8(utf16_chars(units));
    }
}

/// The mark comes first: where the form has a mark and the stream does not
/// begin with it, a reader gives out nothing, however the stream is cut into
/// pieces, and fails on the piece that holds the second byte of the stream,
/// or at the end of a stream that has no second byte.
pub proof fn law_mark_first(variant: Utf16, chunks: Seq<Seq<u8>>)
    requires
        variant.has_bom(),
        !opens_with(chunks.flatten(), variant.mark()),
    ensures
        match ReaderState::start(variant).fed_all(chunks) {
            Ok((last, out)) => out.len() == 0 && last.ended() is Err && chunks.flatten().len() < 2,
            Err(kind) => kind == ErrorKind::BomMismatch,
        },
        read_all(variant, chunks) is Err,
{
    let start = ReaderState::start(variant);
    start.lemma_fed_all(chunks);
    assert(start.held + chunks.flatten() =~= chunks.flatten());
}

/// Streaming equivalence: however a stream is cut into pieces, a reader that
/// takes the pieces in one after the other gives out, in all, the UTF-8
/// bytes of the text that the whole stream decodes to; and where the whole
/// stream does not decode, the reader fails on one of the pieces or at the
/// end of the stream.
pub proof fn law_chunked_reading(variant: Utf16, chunks: Seq<Seq<u8>>)
    ensures
        match decoded(variant, chunks.flatten()) {
            Ok(text) => read_all(variant, chunks) == Ok::<Seq<u8>, ErrorKind>(encode_utf8(text)),
            Err(_) => read_all(variant, chunks) is Err,
        },
{
    ReaderState::start(variant).lemma_fed_all(chunks);
    lemma_fed_whole(variant, chunks.flatten());
}

/// The bytes that a reader holds back, from the fields that hold them: the
/// pending high surrogate, then the first byte of a code unit.
pub open spec fn held_bytes(big_endian: bool, pending_high: Option<u16>, partial: Option<u8>) -> Seq<
    u8,
> {
    (match pending_high {
        Some(high) => unit_bytes(big_endian, high),
        None => Seq::<u8>::empty(),
    }) + (match partial {
        Some(byte) => seq![byte],
        None => Seq::<u8>::empty(),
    })
}

/// A high surrogate that waits for its low surrogate.
struct HighSurrogate {
    unit: u16,
}

impl HighSurrogate {
    #[verifier::type_invariant]
    spec fn inv(self) -> bool {
        is_high_surrogate(self.unit)
    }
}

/// The code unit of a high surrogate that waits, if one does.
spec fn waiting_unit(pending: Option<HighSurrogate>) -> Option<u16> {
    match pending {
        Some(high) => Some(high.unit),
        None => None,
    }
}

/// Finds the ripe part of `body`: its length, and what lies behind it as a
/// pending high surrogate and a first byte of a code unit.
fn cut(big_endian: bool, body: &[u8]) -> (r: (usize, Option<HighSurrogate>, Option<u8>))
    ensures
        r.0 == ripe(big_endian, body@),
        body@.skip(r.0 as int) == held_bytes(big_endian, waiting_unit(r.1), r.2),
{
    let whole: usize = body.len() - body.len() % 2;
    let partial = if body.len() % 2 == 1 {
        Some(body[body.len() - 1])
    } else {
        None
    };
    if whole >= 2 {
        let last = read_unit(big_endian, body[whole - 2], body[whole - 1]);
        if 0xD800 <= last && last <= 0xDBFF {
            proof {
                lemma_pair_round_trip(big_endian, body@[whole - 2], body@[whole - 1]);
            }
            assert(body@.skip(whole - 2) =~= held_bytes(big_endian, Some(last), partial));
            return (whole - 2, Some(HighSurrogate { unit: last }), partial);
        }
    }
    assert(body@.skip(whole as int) =~= held_bytes(big_endian, None, partial));
    (whole, None, partial)
}

/// Decodes the ripe part of `body`, which is its first `k` bytes.
fn decode_ripe(big_endian: bool, body: &[u8], k: usize) -> (r: Result<String, DecodeUtf16Error>)
    requires
        k == ripe(big_endian, body@),
    ensures
        match step(big_endian, body@) {
            Ok((_, out)) => r matches Ok(text) && encode_utf8(text@) == out,
            Err(kind) => r matches Err(e) && e.kind_of() == kind,
        },
{
    proof {
        lemma_ripe(big_endian, body@);
    }
    let mut units: Vec<u16> = Vec::new();
    push_bytes_units(big_endian, slice_subrange(body, 0, k), &mut units);
    assert(units@ =~= bytes_units(big_endian, body@.take(k as int)));
    match String::from_utf16(units.as_slice()) {
        Ok(text) => {
            proof {
                lemma_units_valid(text@);
            }
            Ok(text)
        },
        Err(e) => Err(DecodeUtf16Error::Decode(e)),
    }
}

/// What a reading adapter is to do next for a caller that asks for bytes.
#[derive(Debug, PartialEq, Eq)]
pub enum ReadAction {
    /// Hand these bytes to the caller. They are whole characters; there are
    /// none only where the caller has room for none.
    Give(Vec<u8>),
    /// Ask the stream for bytes and supply what it brings.
    Pull,
    /// Tell the caller that the text has ended.
    End,
    /// Refuse: the caller has less room than the next character takes.
    TooSmall,
}

/// The decoding half of a reading adapter: it is supplied with what was read
/// from the stream, and says what to hand to the caller.
pub struct Utf16Reader {
    variant: Utf16,
    awaiting_mark: bool,
    partial: Option<u8>,
    pending_high: Option<HighSurrogate>,
    ready: String,
    at_end: bool,
}

impl Utf16Reader {
    /// What decoding depends on.
    pub closed spec fn state(&self) -> ReaderState {
        ReaderState {
            variant: self.variant,
            awaiting_mark: self.awaiting_mark,
            held: held_bytes(
                self.variant.big_endian(),
                waiting_unit(self.pending_high),
                self.partial,
            ),
        }
    }

    /// The UTF-8 bytes decoded and not yet given out.
    pub closed spec fn ready(&self) -> Seq<u8> {
        encode_utf8(self.ready@)
    }

    /// Whether the stream has ended, and was allowed to.
    pub closed spec fn at_end(&self) -> bool {
        self.at_end
    }

    /// What waits to be given out is whole characters, at all times.
    pub proof fn lemma_ready_is_utf8(&self)
        ensures
            valid_utf8(self.ready()),
    {
        encode_utf8_valid_utf8(self.ready@);
    }

    /// A reader at the start of a stream in the given wire form.
    pub fn new(variant: Utf16) -> (reader: Utf16Reader)
        ensures
            reader.state() == ReaderState::start(variant),
            reader.ready() == Seq::<u8>::empty(),
            !reader.at_end(),
    {
        let reader = Utf16Reader {
            variant,
            awaiting_mark: variant.carries_bom(),
            partial: None,
            pending_high: None,
            ready: String::new(),
            at_end: false,
        };
        assert(reader.state().held =~= Seq::<u8>::empty());
        reader
    }

    /// The wire form of the stream.
    pub fn variant(&self) -> (variant: Utf16)
        ensures
            variant == self.state().variant,
    {
        self.variant
    }

    /// How many decoded bytes wait to be given out.
    pub fn buffered(&self) -> (n: usize)
        ensures
            n == self.ready().len(),
    {
        self.ready.as_str().as_bytes().len()
    }

    /// Takes in the next bytes of the stream. What they complete is decoded
    /// and waits to be given out. On a failure nothing is taken in.
    pub fn feed(&mut self, raw: &[u8]) -> (r: Result<(), DecodeUtf16Error>)
        ensures
            valid_utf8(final(self).ready()),
            match old(self).state().fed(raw@) {
                Ok((next, out)) => {
                    &&& r is Ok
                    &&& final(self).state() == next
                    &&& final(self).ready() == old(self).ready() + out
                    &&& !final(self).at_end()
                },
                Err(kind) => {
                    &&& r matches Err(e) && e.kind_of() == kind
                    &&& final(self).state() == old(self).state()
                    &&& final(self).ready() == old(self).ready()
                    &&& final(self).at_end() == old(self).at_end()
                },
            },
    {
        proof {
            encode_utf8_valid_utf8(self.ready@);
        }
        let big_endian = self.variant.is_big_endian();
        let buf = self.gather(raw);
        let mut from: usize = 0;
        if self.awaiting_mark {
            if buf.len() < 2 {
                let partial = if buf.len() == 1 {
                    Some(buf[0])
                } else {
                    None
                };
                self.partial = partial;
                self.pending_high = None;
                self.at_end = false;
                assert(self.state().held =~= buf@);
                assert(self.ready() + Seq::<u8>::empty() =~= self.ready());
                return Ok(());
            }
            let mark = self.variant.bom_bytes();
            if buf[0] != mark[0] || buf[1] != mark[1] {
                assert(!opens_with(buf@, self.variant.mark())) by {
                    if opens_with(buf@, self.variant.mark()) {
                        assert(buf@.take(2)[0] == self.variant.mark()[0]);
                        assert(buf@.take(2)[1] == self.variant.mark()[1]);
                    }
                }
                return Err(DecodeUtf16Error::BomMismatch);
            }
            assert(buf@.take(2) =~= self.variant.mark());
            from = 2;
        }
        let body = slice_subrange(buf.as_slice(), from, buf.len());
        assert(body@ =~= if self.awaiting_mark {
            buf@.skip(2)
        } else {
            buf@
        });
        let (k, pending, partial) = cut(big_endian, body);
        match decode_ripe(big_endian, body, k) {
            Ok(text) => {
                proof {
                    lemma_encode_utf8_concat(self.ready@, text@);
                    encode_utf8_valid_utf8(self.ready@ + text@);
                }
                self.ready.append(text.as_str());
                self.awaiting_mark = false;
                self.partial = partial;
                self.pending_high = pending;
                self.at_end = false;
                assert(self.state().held == body@.skip(k as int));
                Ok(())
            },
            Err(e) => Err(e),
        }
    }

    /// What is held back, then `raw`.
    fn gather(&self, raw: &[u8]) -> (buf: Vec<u8>)
        ensures
            buf@ == self.state().held + raw@,
    {
        let big_endian = self.variant.is_big_endian();
        let mut buf: Vec<u8> = Vec::new();
        if let Some(high) = &self.pending_high {
            push_unit(big_endian, high.unit, &mut buf);
        }
        if let Some(byte) = self.partial {
            buf.push(byte);
        }
        assert(buf@ =~= self.state().held);
        push_all(raw, &mut buf);
        buf
    }

    /// Gives out the first characters that wait: as many whole ones as
    /// `max` bytes hold. Nothing comes out where the first one takes more.
    pub fn read(&mut self, max: usize) -> (out: Vec<u8>)
        ensures
            out@.len() <= max,
            valid_utf8(out@),
            out@ + final(self).ready() == old(self).ready(),
            valid_utf8(old(self).ready()),
            valid_utf8(final(self).ready()),
            is_char_boundary(old(self).ready(), out@.len() as int),
            final(self).ready().len() > 0 ==> out@.len() + length_of_first_scalar(
                final(self).ready(),
            ) > max,
            final(self).state() == old(self).state(),
            final(self).at_end() == old(self).at_end(),
    {
        let text = self.ready.as_str();
        let ghost bytes = text.spec_bytes();
        proof {
            encode_utf8_valid_utf8(self.ready@);
            is_char_boundary_start_end_of_seq(bytes);
        }
        let len: usize = text.as_bytes().len();
        let most: usize = if max < len {
            max
        } else {
            len
        };
        let mut at: usize = most;
        while !text.is_char_boundary(at)
            invariant
                at <= most <= len,
                len == bytes.len(),
                bytes == text.spec_bytes(),
                valid_utf8(bytes),
                is_char_boundary(bytes, 0),
                forall|i: int| at < i <= most ==> !is_char_boundary(bytes, i),
            decreases at,
        {
            at -= 1;
        }
        proof {
            if at < len {
                lemma_next_boundary(bytes, at as int);
            }
        }
        let (head, tail) = text.split_at(at);
        let out = slice_to_vec(head.as_bytes());
        let rest = tail.to_owned();
        proof {
            encode_utf8_valid_utf8(rest@);
            valid_utf8_split(bytes, at as int);
            assert(bytes.subrange(0, at as int) + bytes.subrange(at as int, len as int) =~= bytes);
            assert(bytes.skip(at as int) =~= bytes.subrange(at as int, len as int));
        }
        self.ready = rest;
        out
    }

    /// Says what to do for a caller that asks for bytes and has room for
    /// `room` of them: to hand over what waits, as far as it fits; to refuse,
    /// where not even the next character fits; to pull from the stream,
    /// where nothing waits; or to report the end, once the stream has ended.
    pub fn next_action(&mut self, room: usize) -> (action: ReadAction)
        ensures
            valid_utf8(old(self).ready()),
            valid_utf8(final(self).ready()),
            final(self).state() == old(self).state(),
            final(self).at_end() == old(self).at_end(),
            match action {
                ReadAction::Give(out) => {
                    &&& out@.len() <= room
                    &&& valid_utf8(out@)
                    &&& room == 0 || out@.len() > 0
                    &&& out@ + final(self).ready() == old(self).ready()
                    &&& is_char_boundary(old(self).ready(), out@.len() as int)
                    &&& final(self).ready().len() > 0 ==> out@.len() + length_of_first_scalar(
                        final(self).ready(),
                    ) > room
                },
                ReadAction::TooSmall => {
                    &&& room > 0
                    &&& old(self).ready().len() > 0
                    &&& length_of_first_scalar(old(self).ready()) > room
                    &&& final(self).ready() == old(self).ready()
                },
                ReadAction::Pull => {
                    &&& room > 0
                    &&& old(self).ready().len() == 0
                    &&& !old(self).at_end()
                    &&& final(self).ready() == old(self).ready()
                },
                ReadAction::End => {
                    &&& room > 0
                    &&& old(self).ready().len() == 0
                    &&& old(self).at_end()
                    &&& final(self).ready() == old(self).ready()
                },
            },
    {
        proof {
            encode_utf8_valid_utf8(self.ready@);
            is_char_boundary_start_end_of_seq(self.ready());
        }
        if room == 0 {
            let out: Vec<u8> = Vec::new();
            proof {
                assert(out@ + self.ready() =~= self.ready());
                if self.ready().len() > 0 {
                    lemma_next_boundary(self.ready(), 0);
                    assert(self.ready().skip(0) =~= self.ready());
                }
            }
            return ReadAction::Give(out);
        }
        if self.buffered() == 0 {
            if self.at_end {
                return ReadAction::End;
            }
            return ReadAction::Pull;
        }
        let out = self.read(room);
        if out.len() == 0 {
            assert(self.ready() =~= old(self).ready());
            ReadAction::TooSmall
        } else {
            ReadAction::Give(out)
        }
    }

    /// Takes in what a pull brought: the next bytes of the stream, or none
    /// where the stream has ended. With bytes this is `feed`, with none it
    /// is `finish`.
    pub fn supply(&mut self, raw: &[u8]) -> (r: Result<(), DecodeUtf16Error>)
        ensures
            valid_utf8(final(self).ready()),
            raw@.len() > 0 ==> match old(self).state().fed(raw@) {
                Ok((next, out)) => {
                    &&& r is Ok
                    &&& final(self).state() == next
                    &&& final(self).ready() == old(self).ready() + out
                    &&& !final(self).at_end()
                },
                Err(kind) => {
                    &&& r matches Err(e) && e.kind_of() == kind
                    &&& final(self).state() == old(self).state()
                    &&& final(self).ready() == old(self).ready()
                    &&& final(self).at_end() == old(self).at_end()
                },
            },
            raw@.len() == 0 ==> final(self).state() == old(self).state() && final(self).ready()
                == old(self).ready() && match old(self).state().ended() {
                Ok(()) => r is Ok && final(self).at_end(),
                Err(kind) => r matches Err(e) && e.kind_of() == kind && final(self).at_end() == old(
                    self,
                ).at_end(),
            },
    {
        if raw.len() == 0 {
            self.finish()
        } else {
            self.feed(raw)
        }
    }

    /// Ends the stream here, where it may end: `Ok` where nothing is
    /// outstanding, else the failure that says what is. What waits to be
    /// given out stays.
    pub fn finish(&mut self) -> (r: Result<(), DecodeUtf16Error>)
        ensures
            valid_utf8(final(self).ready()),
            final(self).state() == old(self).state(),
            final(self).ready() == old(self).ready(),
            match old(self).state().ended() {
                Ok(()) => r is Ok && final(self).at_end(),
                Err(kind) => r matches Err(e) && e.kind_of() == kind && final(self).at_end() == old(
                    self,
                ).at_end(),
            },
    {
        proof {
            encode_utf8_valid_utf8(self.ready@);
        }
        if self.partial.is_some() {
            return Err(DecodeUtf16Error::BadLength);
        }
        if self.awaiting_mark {
            return Err(DecodeUtf16Error::BomMismatch);
        }
        match &self.pending_high {
            None => {
                assert(self.state().held =~= Seq::<u8>::empty());
                self.at_end = true;
                Ok(())
            },
            Some(high) => {
                proof {
                    use_type_invariant(high);
                }
                let mut lone: Vec<u16> = Vec::new();
                lone.push(high.unit);
                assert(!valid_utf16(lone@));
                match String::from_utf16(lone.as_slice()) {
                    Ok(_) => unreached(),
                    Err(e) => Err(DecodeUtf16Error::Decode(e)),
                }
            },
        }
    }

    /// Forgets what is held back and what waits to be given out, after the
    /// stream was moved to `position`. The mark is awaited again at the
    /// start of a stream that has one, and nowhere else.
    pub fn seek(&mut self, position: u64)
        ensures
            final(self).state() == if position == 0 {
                ReaderState::start(old(self).state().variant)
            } else {
                ReaderState::midway(old(self).state().variant)
            },
            final(self).ready() == Seq::<u8>::empty(),
            valid_utf8(final(self).ready()),
            !final(self).at_end(),
    {
        self.awaiting_mark = position == 0 && self.variant.carries_bom();
        self.partial = None;
        self.pending_high = None;
        self.ready = String::new();
        self.at_end = false;
        assert(self.state().held =~= Seq::<u8>::empty());
    }
}

} // verus!
