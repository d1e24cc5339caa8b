//! Writing UTF-16 in pieces.
//!
//! A writer takes the UTF-8 bytes of a text as they arrive, in pieces of any
//! size, and gives out the bytes of the UTF-16 stream. A sequence that a
//! piece leaves unfinished is held back until the next piece completes it.

use crate::bytes::{
    lemma_units_bytes_concat, lemma_units_bytes_index, push_all, push_units, units_bytes,
};
use crate::codec::encoded;
use crate::error::{DecodeUtf16Error, ErrorKind};
use crate::units::{lemma_units_concat, str_units, utf16_units};
use crate::utf8::{
    lemma_unfinished, lemma_unfinished_boundary, lemma_unfinished_invalid, unfinished,
    unfinished_len,
};
use crate::variant::Utf16;
use vstd::prelude::*;
use vstd::slice::{slice_subrange, slice_to_vec};
use vstd::utf8::{
    decode_utf8, decode_utf8_split, encode_utf8, encode_utf8_decode_utf8,
    encode_utf8_valid_utf8, valid_utf8, valid_utf8_concat, valid_utf8_split,
};

verus! {

/// What a writer knows between two pieces of input.
#[verifier::ext_equal]
pub struct WriterState {
    /// The wire form of the stream.
    pub variant: Utf16,
    /// Whether the mark is still to be given out.
    pub mark_pending: bool,
    /// The bytes of a UTF-8 sequence that is not finished yet.
    pub partial: Seq<u8>,
}

impl WriterState {
    /// The state at the start of a stream.
    pub open spec fn start(variant: Utf16) -> WriterState {
        WriterState { variant, mark_pending: variant.has_bom(), partial: Seq::<u8>::empty() }
    }

    /// The state right after a seek to a place behind the start.
    pub open spec fn midway(variant: Utf16) -> WriterState {
        WriterState { variant, mark_pending: false, partial: Seq::<u8>::empty() }
    }

    /// What is held back is one unfinished sequence, or nothing.
    pub open spec fn wf(self) -> bool {
        unfinished(self.partial) == self.partial.len()
    }

    /// The mark, where it is still to be given out.
    pub open spec fn opening(self) -> Seq<u8> {
        if self.mark_pending {
            self.variant.mark()
        } else {
            Seq::<u8>::empty()
        }
    }

    /// What taking in `chunk` leads to: the next state and the bytes for the
    /// stream, or the kind of failure. All but an unfinished end of what is
    /// there must be UTF-8; it goes out as code units, behind the mark where
    /// that is still to be given out.
    pub open spec fn written(self, chunk: Seq<u8>) -> Result<(WriterState, Seq<u8>), ErrorKind> {
        let buf = self.partial + chunk;
        let cut = buf.len() - unfinished(buf);
        let head = buf.take(cut);
        if valid_utf8(head) {
            Ok(
                (
                    WriterState {
                        variant: self.variant,
                        mark_pending: false,
                        partial: buf.skip(cut),
                    },
                    self.opening() + units_bytes(
                        self.variant.big_endian(),
                        utf16_units(decode_utf8(head)),
                    ),
                ),
            )
        } else {
            Err(ErrorKind::InvalidUtf8)
        }
    }

    /// What the end of the text leads to: the last bytes for the stream,
    /// which are the mark where nothing was written before, or the failure
    /// that an unfinished sequence is.
    pub open spec fn closed(self) -> Result<Seq<u8>, ErrorKind> {
        if self.partial.len() > 0 {
            Err(ErrorKind::IncompleteTrailingSequence)
        } else {
            Ok(self.opening())
        }
    }

    /// What taking in the pieces of `chunks` one after the other leads to:
    /// the last state and all the bytes for the stream, or the first failure.
    pub open spec fn written_all(self, chunks: Seq<Seq<u8>>) -> Result<
        (WriterState, Seq<u8>),
        ErrorKind,
    >
        decreases chunks.len(),
    {
        if chunks.len() == 0 {
            Ok((self, Seq::<u8>::empty()))
        } else {
            match self.written(chunks.first()) {
                Ok((next, out)) => match next.written_all(chunks.drop_first()) {
                    Ok((last, more)) => Ok((last, out + more)),
                    Err(kind) => Err(kind),
                },
                Err(kind) => Err(kind),
            }
        }
    }

    /// What a writer in this state gives out in all when the pieces of
    /// `chunks` arrive and the text then ends.
    pub open spec fn finished(self, chunks: Seq<Seq<u8>>) -> Result<Seq<u8>, ErrorKind> {
        match self.written_all(chunks) {
            Ok((last, out)) => match last.closed() {
                Ok(tail) => Ok(out + tail),
                Err(kind) => Err(kind),
            },
            Err(kind) => Err(kind),
        }
    }

    /// Taking in bytes keeps the state well formed.
    pub proof fn lemma_written_wf(self, chunk: Seq<u8>)
        ensures
            self.written(chunk) matches Ok((next, _)) ==> next.wf() && next.variant
                == self.variant,
    {
        lemma_unfinished(self.partial + chunk);
    }

    /// One piece of a text that is valid UTF-8 as a whole, `rest` being
    /// what follows the piece: the piece is taken in, what is then held back
    /// and `rest` are valid UTF-8 again, and what goes out and the code units
    /// of that remainder make up the code units of the whole.
    pub proof fn lemma_written_valid(self, chunk: Seq<u8>, rest: Seq<u8>)
        requires
            valid_utf8(self.partial + chunk + rest),
        ensures
            self.written(chunk) matches Ok((next, out)) && valid_utf8(next.partial + rest) && out
                + units_bytes(
                self.variant.big_endian(),
                utf16_units(decode_utf8(next.partial + rest)),
            ) == self.opening() + units_bytes(
                self.variant.big_endian(),
                utf16_units(decode_utf8(self.partial + chunk + rest)),
            ),
    {
        let big_endian = self.variant.big_endian();
        let text = self.partial + chunk + rest;
        let buf = self.partial + chunk;
        let cut = buf.len() - unfinished(buf);
        let head = buf.take(cut);
        let tail = buf.skip(cut);
        lemma_unfinished(buf);
        assert(text.take(buf.len() as int) =~= buf);
        assert(text.take(cut) =~= head);
        assert(text.skip(cut) =~= tail + rest);
        lemma_unfinished_boundary(text, buf.len() as int);
        valid_utf8_split(text, cut);
        decode_utf8_split(text, cut);
        let first = utf16_units(decode_utf8(head));
        let second = utf16_units(decode_utf8(tail + rest));
        lemma_units_concat(decode_utf8(head), decode_utf8(tail + rest));
        lemma_units_bytes_concat(big_endian, first, second);
        assert((self.opening() + units_bytes(big_endian, first)) + units_bytes(big_endian, second)
            =~= self.opening() + (units_bytes(big_endian, first) + units_bytes(
            big_endian,
            second,
        )));
    }

    /// One piece of a text that is no valid UTF-8 as a whole, `rest` being
    /// what follows the piece: where the piece is taken in, what is then held
    /// back and `rest` are no valid UTF-8 either.
    pub proof fn lemma_written_invalid(self, chunk: Seq<u8>, rest: Seq<u8>)
        requires
            !valid_utf8(self.partial + chunk + rest),
        ensures
            self.written(chunk) matches Ok((next, _)) ==> !valid_utf8(next.partial + rest),
    {
        let buf = self.partial + chunk;
        let cut = buf.len() - unfinished(buf);
        let head = buf.take(cut);
        let tail = buf.skip(cut);
        lemma_unfinished(buf);
        if valid_utf8(head) && valid_utf8(tail + rest) {
            valid_utf8_concat(head, tail + rest);
            assert(head + (tail + rest) =~= self.partial + chunk + rest);
        }
    }

    /// Nothing more to take in: the text may end exactly where what is held
    /// back is valid UTF-8, which it is only when it is empty.
    pub proof fn lemma_closed(self)
        requires
            self.wf(),
        ensures
            if valid_utf8(self.partial) {
                self.closed() == Ok::<Seq<u8>, ErrorKind>(self.opening()) && units_bytes(
                    self.variant.big_endian(),
                    utf16_units(decode_utf8(self.partial)),
                ) == Seq::<u8>::empty()
            } else {
                self.closed() is Err
            },
    {
        if self.partial.len() > 0 {
            lemma_unfinished_invalid(self.partial);
        } else {
            assert(decode_utf8(self.partial) =~= Seq::<char>::empty());
            lemma_units_bytes_index(
                self.variant.big_endian(),
                utf16_units(decode_utf8(self.partial)),
            );
            assert(units_bytes(self.variant.big_endian(), utf16_units(decode_utf8(self.partial)))
                =~= Seq::<u8>::empty());
        }
    }

    /// The pieces of a text taken in one after the other: where what is held
    /// back and the pieces make up valid UTF-8, the code units of that text
    /// go out, behind the mark where that was still to be given out; where
    /// they do not, one of the pieces or the end of the text fails.
    pub proof fn lemma_finished(self, chunks: Seq<Seq<u8>>)
        requires
            self.wf(),
        ensures
            if valid_utf8(self.partial + chunks.flatten()) {
                self.finished(chunks) == Ok::<Seq<u8>, ErrorKind>(
                    self.opening() + units_bytes(
                        self.variant.big_endian(),
                        utf16_units(decode_utf8(self.partial + chunks.flatten())),
                    ),
                )
            } else {
                self.finished(chunks) is Err
            },
        decreases chunks.len(),
    {
        let big_endian = self.variant.big_endian();
        let text = self.partial + chunks.flatten();
        if chunks.len() == 0 {
            assert(text =~= self.partial);
            self.lemma_closed();
            assert(Seq::<u8>::empty() + self.opening() =~= self.opening() + Seq::<u8>::empty());
        } else {
            let chunk = chunks.first();
            let rest = chunks.drop_first();
            assert(text =~= self.partial + chunk + rest.flatten());
            self.lemma_written_wf(chunk);
            if valid_utf8(text) {
                self.lemma_written_valid(chunk, rest.flatten());
            } else {
                self.lemma_written_invalid(chunk, rest.flatten());
            }
            match self.written(chunk) {
                Ok((next, out)) => {
                    next.lemma_finished(rest);
                    assert(next.opening() =~= Seq::<u8>::empty());
                    match next.written_all(rest) {
                        Ok((last, more)) => {
                            match last.closed() {
                                Ok(end) => {
                                    assert((out + more) + end =~= out + (more + end));
                                    assert(Seq::<u8>::empty() + units_bytes(
                                        big_endian,
                                        utf16_units(decode_utf8(next.partial + rest.flatten())),
                                    ) =~= units_bytes(
                                        big_endian,
                                        utf16_units(decode_utf8(next.partial + rest.flatten())),
                                    ));
                                },
                                Err(_) => {},
                            }
                        },
                        Err(_) => {},
                    }
                },
                Err(_) => {},
            }
        }
    }
}

/// What a writer gives out in all when a text arrives in the pieces of
/// `chunks` and then ends.
pub open spec fn write_all(variant: Utf16, chunks: Seq<Seq<u8>>) -> Result<Seq<u8>, ErrorKind> {
    WriterState::start(variant).finished(chunks)
}

/// Streaming equivalence: however the UTF-8 bytes of a text are cut into
/// pieces, a writer that takes the pieces in one after the other gives out,
/// in all, the encoding of the whole text; and bytes that are no UTF-8 make
/// the writer fail on one of the pieces or at the end.
pub proof fn law_chunked_writing(variant: Utf16, chunks: Seq<Seq<u8>>)
    ensures
        if valid_utf8(chunks.flatten()) {
            write_all(variant, chunks) == Ok::<Seq<u8>, ErrorKind>(
                encoded(variant, decode_utf8(chunks.flatten())),
            )
        } else {
            write_all(variant, chunks) is Err
        },
{
    let start = WriterState::start(variant);
    assert(start.partial + chunks.flatten() =~= chunks.flatten());
    start.lemma_finished(chunks);
}

/// Streaming equivalence, from the text: the pieces of the UTF-8 bytes of a
/// text give the encoding of that text.
pub proof fn law_chunked_text(variant: Utf16, text: Seq<char>, chunks: Seq<Seq<u8>>)
    requires
        chunks.flatten() == encode_utf8(text),
    ensures
        write_all(variant, chunks) == Ok::<Seq<u8>, ErrorKind>(encoded(variant, text)),
{
    encode_utf8_valid_utf8(text);
    encode_utf8_decode_utf8(text);
    law_chunked_writing(variant, chunks);
}

/// The encoding half of a writing adapter: it is fed the UTF-8 bytes of the
/// text and gives out what goes to the stream.
pub struct Utf16Writer {
    variant: Utf16,
    mark_pending: bool,
    partial: Vec<u8>,
}

impl Utf16Writer {
    /// What encoding depends on.
    pub closed spec fn state(&self) -> WriterState {
        WriterState {
            variant: self.variant,
            mark_pending: self.mark_pending,
            partial: self.partial@,
        }
    }

    /// A writer at the start of a stream in the given wire form.
    pub fn new(variant: Utf16) -> (writer: Utf16Writer)
        ensures
            writer.state() == WriterState::start(variant),
    {
        Utf16Writer { variant, mark_pending: variant.carries_bom(), partial: Vec::new() }
    }

    /// The wire form of the stream.
    pub fn variant(&self) -> (variant: Utf16)
        ensures
            variant == self.state().variant,
    {
        self.variant
    }

    /// How many bytes of an unfinished sequence are held back.
    pub fn pending(&self) -> (n: usize)
        ensures
            n == self.state().partial.len(),
    {
        self.partial.len()
    }

    /// The mark, where it is still to be given out.
    fn opening(&self) -> (out: Vec<u8>)
        ensures
            out@ == self.state().opening(),
    {
        let mut out: Vec<u8> = Vec::new();
        if self.mark_pending {
            let mark = self.variant.bom_bytes();
            out.push(mark[0]);
            out.push(mark[1]);
        }
        assert(out@ =~= self.state().opening());
        out
    }

    /// Takes in the next UTF-8 bytes of the text and gives out the bytes that
    /// go to the stream for them: the code units of all that is complete,
    /// behind the mark where that is still to be given out. On a failure
    /// nothing is taken in.
    pub fn write(&mut self, utf8: &[u8]) -> (r: Result<Vec<u8>, DecodeUtf16Error>)
        ensures
            match old(self).state().written(utf8@) {
                Ok((next, out)) => {
                    &&& r matches Ok(bytes) && bytes@ == out
                    &&& final(self).state() == next
                },
                Err(kind) => {
                    &&& r matches Err(e) && e.kind_of() == kind
                    &&& final(self).state() == old(self).state()
                },
            },
    {
        let mut buf: Vec<u8> = Vec::new();
        push_all(self.partial.as_slice(), &mut buf);
        push_all(utf8, &mut buf);
        assert(buf@ =~= self.state().partial + utf8@);
        let cut: usize = buf.len() - unfinished_len(buf.as_slice());
        let head = slice_subrange(buf.as_slice(), 0, cut);
        match core::str::from_utf8(head) {
            Ok(text) => {
                proof {
                    encode_utf8_decode_utf8(text@);
                }
                let units = str_units(text);
                let mut out = self.opening();
                push_units(self.variant.is_big_endian(), units.as_slice(), &mut out);
                self.partial = slice_to_vec(slice_subrange(buf.as_slice(), cut, buf.len()));
                self.mark_pending = false;
                Ok(out)
            },
            Err(_) => Err(DecodeUtf16Error::InvalidUtf8),
        }
    }

    /// Ends the text and gives out the last bytes that go to the stream: the
    /// mark where nothing was written before. A sequence that was never
    /// finished is a failure, and stays held back.
    pub fn finish(&mut self) -> (r: Result<Vec<u8>, DecodeUtf16Error>)
        ensures
            match old(self).state().closed() {
                Ok(tail) => {
                    &&& r matches Ok(bytes) && bytes@ == tail
                    &&& final(self).state() == WriterState::midway(old(self).state().variant)
                },
                Err(kind) => {
                    &&& r matches Err(e) && e.kind_of() == kind
                    &&& final(self).state() == old(self).state()
                },
            },
    {
        if self.partial.len() > 0 {
            return Err(DecodeUtf16Error::IncompleteTrailingSequence);
        }
        let out = self.opening();
        self.mark_pending = false;
        assert(self.state().partial =~= Seq::<u8>::empty());
        Ok(out)
    }

    /// Forgets what is held back, after the stream was moved to `position`.
    /// The mark is due again at the start of a stream that has one, and
    /// nowhere else.
    pub fn seek(&mut self, position: u64)
        ensures
            final(self).state() == if position == 0 {
                WriterState::start(old(self).state().variant)
            } else {
                WriterState::midway(old(self).state().variant)
            },
    {
        self.mark_pending = position == 0 && self.variant.carries_bom();
        self.partial = Vec::new();
    }
}

} // verus!
