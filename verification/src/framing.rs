//! Length-prefixed framing over chunked byte transports.
//!
//! A frame is a 4-byte little-endian payload length followed by the payload.
//! [`FrameReader`] reassembles frames from arbitrarily split chunks, matching
//! delivery where message and chunk boundaries are unrelated.

use crate::strings::append;
use crate::strings::decimal;
use crate::strings::numeral;
use vstd::prelude::*;

verus! {

pub const FRAME_HEADER_LEN: usize = 4;

pub const DEFAULT_MAX_FRAME_LEN: usize = 67_108_864;

#[derive(Debug, Clone, Copy, PartialEq, Eq, Structural)]
pub enum FrameError {
    Empty,
    TooLarge { len: usize, max: usize },
}

/// A frame error in words.
pub open spec fn frame_error_text(error: FrameError) -> Seq<char> {
    match error {
        FrameError::Empty => "zero-length frame"@,
        FrameError::TooLarge { len, max } => "frame of "@ + numeral(len as nat)
            + " bytes exceeds maximum of "@ + numeral(max as nat),
    }
}

impl FrameError {
    /// The error in words.
    pub fn message(&self) -> (text: String)
        ensures
            text@ == frame_error_text(*self),
    {
        match self {
            Self::Empty => "zero-length frame".to_owned(),
            Self::TooLarge { len, max } => {
                let mut text: String = "frame of ".to_owned();
                append(&mut text, decimal(*len as u64).as_str());
                append(&mut text, " bytes exceeds maximum of ");
                append(&mut text, decimal(*max as u64).as_str());
                text
            },
        }
    }
}

/// The four header bytes of a payload of `len` bytes, least significant first.
pub open spec fn header_bytes(len: nat) -> Seq<u8> {
    seq![
        (len % 256) as u8,
        ((len / 256) % 256) as u8,
        ((len / 65536) % 256) as u8,
        ((len / 16777216) % 256) as u8,
    ]
}

/// The payload length that four header bytes announce.
pub open spec fn header_len(header: Seq<u8>) -> nat {
    (header[0] + 256 * header[1] + 65536 * header[2] + 16777216 * header[3]) as nat
}

/// A payload's frame: its header followed by the payload itself.
pub open spec fn frame_bytes(payload: Seq<u8>) -> Seq<u8> {
    header_bytes(payload.len()) + payload
}

/// Whether a payload can be framed at all.
pub open spec fn framable(payload: Seq<u8>) -> bool {
    0 < payload.len() <= DEFAULT_MAX_FRAME_LEN
}

/// What the front of a byte stream holds.
pub enum Parsed {
    /// A complete frame: its payload, and the bytes after it.
    Frame { payload: Seq<u8>, rest: Seq<u8> },
    /// Not enough bytes yet to tell, or not the whole payload yet.
    Incomplete,
    /// A header that announces a payload no frame may have.
    Invalid(FrameError),
}

/// Reads the frame at the front of `bytes`, whose payload may be at most `max`
/// bytes long.
pub open spec fn parse_frame(bytes: Seq<u8>, max: usize) -> Parsed {
    if bytes.len() < FRAME_HEADER_LEN {
        Parsed::Incomplete
    } else {
        let len = header_len(bytes.take(4));
        if len == 0 {
            Parsed::Invalid(FrameError::Empty)
        } else if len > max {
            Parsed::Invalid(FrameError::TooLarge { len: len as usize, max })
        } else if bytes.len() < FRAME_HEADER_LEN + len {
            Parsed::Incomplete
        } else {
            Parsed::Frame {
                payload: bytes.subrange(4, 4 + len as int),
                rest: bytes.skip(4 + len as int),
            }
        }
    }
}

/// Every frame at the front of `bytes`, up to the first that is incomplete or
/// invalid.
pub open spec fn parse_all(bytes: Seq<u8>, max: usize) -> Seq<Seq<u8>>
    decreases bytes.len(),
{
    match parse_frame(bytes, max) {
        Parsed::Frame { payload, rest } => seq![payload] + parse_all(rest, max),
        _ => Seq::empty(),
    }
}

/// The stream that carries `payloads` one after another.
pub open spec fn stream_of(payloads: Seq<Seq<u8>>) -> Seq<u8>
    decreases payloads.len(),
{
    if payloads.len() == 0 {
        Seq::empty()
    } else {
        frame_bytes(payloads[0]) + stream_of(payloads.drop_first())
    }
}

/// A header announces exactly the length it was written for.
pub proof fn lemma_header_round_trip(len: nat)
    requires
        len <= u32::MAX,
    ensures
        header_len(header_bytes(len)) == len,
{
    let (a, b, c, d) = (len % 256, (len / 256) % 256, (len / 65536) % 256, (len / 16777216) % 256);
    assert(len == a + 256 * b + 65536 * c + 16777216 * d) by (nonlinear_arith)
        requires
            a == len % 256,
            b == (len / 256) % 256,
            c == (len / 65536) % 256,
            d == (len / 16777216) % 256,
            0 <= len <= 0xffff_ffff,
    ;
}

/// What was framed is what comes out: the frame of any payload that a reader
/// accepts is read back as that payload, and nothing after it is touched.
pub proof fn law_frame_round_trip(payload: Seq<u8>, rest: Seq<u8>, max: usize)
    requires
        framable(payload),
        payload.len() <= max,
    ensures
        parse_frame(frame_bytes(payload) + rest, max) == (Parsed::Frame { payload, rest }),
{
    let stream = frame_bytes(payload) + rest;
    assert(stream.take(4) =~= header_bytes(payload.len()));
    lemma_header_round_trip(payload.len());
    assert(stream.subrange(4, 4 + payload.len() as int) =~= payload);
    assert(stream.skip(4 + payload.len() as int) =~= rest);
}

/// A frame of which any part is still missing yields nothing yet.
pub proof fn law_partial_frame_is_incomplete(payload: Seq<u8>, received: int, max: usize)
    requires
        framable(payload),
        payload.len() <= max,
        0 <= received < frame_bytes(payload).len(),
    ensures
        parse_frame(frame_bytes(payload).take(received), max) is Incomplete,
{
    let part = frame_bytes(payload).take(received);
    if received >= 4 {
        assert(part.take(4) =~= header_bytes(payload.len()));
        lemma_header_round_trip(payload.len());
    }
}

/// What the front of the stream holds does not change as more bytes arrive.
pub proof fn law_more_bytes_change_nothing_read(bytes: Seq<u8>, more: Seq<u8>, max: usize)
    ensures
        match parse_frame(bytes, max) {
            Parsed::Frame { payload, rest } => parse_frame(bytes + more, max) == (Parsed::Frame {
                payload,
                rest: rest + more,
            }),
            Parsed::Invalid(error) => parse_frame(bytes + more, max) == Parsed::Invalid(error),
            Parsed::Incomplete => true,
        },
{
    if bytes.len() >= 4 {
        assert((bytes + more).take(4) =~= bytes.take(4));
        let len = header_len(bytes.take(4));
        if 0 < len <= max && bytes.len() >= 4 + len {
            assert((bytes + more).subrange(4, 4 + len as int) =~= bytes.subrange(
                4,
                4 + len as int,
            ));
            assert((bytes + more).skip(4 + len as int) =~= bytes.skip(4 + len as int) + more);
        }
    }
}

/// A stream of frames carries its payloads: all of them, whole, in order, and
/// nothing else.
pub proof fn law_stream_carries_its_payloads(payloads: Seq<Seq<u8>>, max: usize)
    requires
        forall|i: int|
            0 <= i < payloads.len() ==> framable(#[trigger] payloads[i]) && payloads[i].len()
                <= max,
    ensures
        parse_all(stream_of(payloads), max) == payloads,
    decreases payloads.len(),
{
    if payloads.len() > 0 {
        let rest = payloads.drop_first();
        assert forall|i: int| 0 <= i < rest.len() implies framable(#[trigger] rest[i])
            && rest[i].len() <= max by {
            assert(rest[i] == payloads[i + 1]);
        }
        law_stream_carries_its_payloads(rest, max);
        law_frame_round_trip(payloads[0], stream_of(rest), max);
        assert(seq![payloads[0]] + rest =~= payloads);
    }
}

/// A call of a [`FrameReader`].
pub enum ReaderCall {
    Push(Seq<u8>),
    NextFrame,
}

/// A reader that has been called some times: the bytes it has not consumed, the
/// payloads it has returned, whether the last call found no whole frame, and whether
/// any call failed.
pub struct ReaderRun {
    pub pending: Seq<u8>,
    pub frames: Seq<Seq<u8>>,
    pub drained: bool,
    pub failed: bool,
}

/// A new reader after calls, each as [`FrameReader::push`] or
/// [`FrameReader::next_frame`] takes it.
pub open spec fn after_calls(calls: Seq<ReaderCall>, max: usize) -> ReaderRun
    decreases calls.len(),
{
    if calls.len() == 0 {
        ReaderRun {
            pending: Seq::empty(),
            frames: Seq::empty(),
            drained: false,
            failed: false,
        }
    } else {
        let before = after_calls(calls.drop_last(), max);
        match calls.last() {
            ReaderCall::Push(chunk) => ReaderRun {
                pending: before.pending + chunk,
                drained: false,
                ..before
            },
            ReaderCall::NextFrame => match parse_frame(before.pending, max) {
                Parsed::Frame { payload, rest } => ReaderRun {
                    pending: rest,
                    frames: before.frames.push(payload),
                    drained: false,
                    ..before
                },
                Parsed::Incomplete => ReaderRun { drained: true, ..before },
                Parsed::Invalid(_) => ReaderRun { drained: false, failed: true, ..before },
            },
        }
    }
}

/// The bytes that were pushed.
pub open spec fn pushed(calls: Seq<ReaderCall>) -> Seq<u8>
    decreases calls.len(),
{
    if calls.len() == 0 {
        Seq::empty()
    } else {
        match calls.last() {
            ReaderCall::Push(chunk) => pushed(calls.drop_last()) + chunk,
            ReaderCall::NextFrame => pushed(calls.drop_last()),
        }
    }
}

/// The front of a stream that ends in a part of a frame.
proof fn lemma_front(payloads: Seq<Seq<u8>>, k: int, tail: Seq<u8>, max: usize)
    requires
        0 <= k <= payloads.len(),
        forall|i: int|
            0 <= i < payloads.len() ==> framable(#[trigger] payloads[i]) && payloads[i].len()
                <= max,
        parse_frame(tail, max) is Incomplete,
    ensures
        parse_frame(stream_of(payloads.skip(k)) + tail, max) == (if k < payloads.len() {
            Parsed::Frame {
                payload: payloads[k],
                rest: stream_of(payloads.skip(k + 1)) + tail,
            }
        } else {
            Parsed::Incomplete
        }),
{
    let left = payloads.skip(k);
    if k < payloads.len() {
        assert(left.drop_first() =~= payloads.skip(k + 1));
        let rest = stream_of(payloads.skip(k + 1)) + tail;
        law_frame_round_trip(payloads[k], rest, max);
        assert(stream_of(left) + tail =~= frame_bytes(payloads[k]) + rest);
    } else {
        assert(left.len() == 0);
        assert(stream_of(left) + tail =~= tail);
    }
}

/// What a reader has returned and what it holds, part way through a stream.
proof fn lemma_part_way(
    calls: Seq<ReaderCall>,
    payloads: Seq<Seq<u8>>,
    tail: Seq<u8>,
    more: Seq<u8>,
    max: usize,
)
    requires
        forall|i: int|
            0 <= i < payloads.len() ==> framable(#[trigger] payloads[i]) && payloads[i].len()
                <= max,
        parse_frame(tail, max) is Incomplete,
        pushed(calls) + more == stream_of(payloads) + tail,
    ensures
        ({
            let run = after_calls(calls, max);
            let k = run.frames.len() as int;
            &&& !run.failed
            &&& k <= payloads.len()
            &&& run.frames == payloads.take(k)
            &&& run.pending + more == stream_of(payloads.skip(k)) + tail
            &&& run.drained ==> parse_frame(run.pending, max) is Incomplete
        }),
    decreases calls.len(),
{
    let run = after_calls(calls, max);
    if calls.len() == 0 {
        assert(payloads.skip(0) =~= payloads);
        assert(run.frames =~= payloads.take(0));
    } else {
        let init = calls.drop_last();
        let before = after_calls(init, max);
        match calls.last() {
            ReaderCall::Push(chunk) => {
                assert(pushed(init) + (chunk + more) =~= pushed(calls) + more);
                lemma_part_way(init, payloads, tail, chunk + more, max);
                assert(run.pending + more =~= before.pending + (chunk + more));
            },
            ReaderCall::NextFrame => {
                lemma_part_way(init, payloads, tail, more, max);
                let k = before.frames.len() as int;
                lemma_front(payloads, k, tail, max);
                law_more_bytes_change_nothing_read(before.pending, more, max);
                if parse_frame(before.pending, max) is Frame {
                    assert(run.frames =~= payloads.take(k + 1));
                }
            },
        }
    }
}

/// However a stream of frames is cut into chunks, and whenever the reader is asked
/// in between, it returns the payloads of the stream, in order, each whole and once,
/// and no call fails. Once all has been pushed and a call finds no whole frame, all
/// payloads have been returned, and what is left is the part of a frame that the
/// stream ends in.
pub proof fn law_chunks_give_their_payloads(
    calls: Seq<ReaderCall>,
    payloads: Seq<Seq<u8>>,
    unfinished: Seq<u8>,
    received: int,
    max: usize,
)
    requires
        forall|i: int|
            0 <= i < payloads.len() ==> framable(#[trigger] payloads[i]) && payloads[i].len()
                <= max,
        framable(unfinished),
        unfinished.len() <= max,
        0 <= received < frame_bytes(unfinished).len(),
        pushed(calls) == stream_of(payloads) + frame_bytes(unfinished).take(received),
    ensures
        ({
            let run = after_calls(calls, max);
            &&& !run.failed
            &&& run.frames.len() <= payloads.len()
            &&& run.frames == payloads.take(run.frames.len() as int)
            &&& run.drained ==> run.frames == payloads && run.pending == frame_bytes(
                unfinished,
            ).take(received)
        }),
{
    let tail = frame_bytes(unfinished).take(received);
    let none = Seq::<u8>::empty();
    let run = after_calls(calls, max);
    let k = run.frames.len() as int;
    law_partial_frame_is_incomplete(unfinished, received, max);
    assert(pushed(calls) + none =~= pushed(calls));
    lemma_part_way(calls, payloads, tail, none, max);
    assert(run.pending + none =~= run.pending);
    lemma_front(payloads, k, tail, max);
    if run.drained {
        assert(payloads.take(k) =~= payloads);
        assert(payloads.skip(k).len() == 0);
        assert(stream_of(payloads.skip(k)) + tail =~= tail);
    }
}

/// A stream that is cut short is read as far as it has come: every payload returned
/// is the stream's next, no call fails, and a call that finds no whole frame leaves
/// none that is there.
pub proof fn law_a_stream_is_read_as_it_comes(
    calls: Seq<ReaderCall>,
    payloads: Seq<Seq<u8>>,
    to_come: Seq<u8>,
    max: usize,
)
    requires
        forall|i: int|
            0 <= i < payloads.len() ==> framable(#[trigger] payloads[i]) && payloads[i].len()
                <= max,
        pushed(calls) + to_come == stream_of(payloads),
    ensures
        ({
            let run = after_calls(calls, max);
            let k = run.frames.len() as int;
            &&& !run.failed
            &&& k <= payloads.len()
            &&& run.frames == payloads.take(k)
            &&& run.pending + to_come == stream_of(payloads.skip(k))
            &&& run.drained ==> parse_frame(run.pending, max) is Incomplete
        }),
{
    let none = Seq::<u8>::empty();
    assert(stream_of(payloads) + none =~= stream_of(payloads));
    lemma_part_way(calls, payloads, none, to_come, max);
    let k = after_calls(calls, max).frames.len() as int;
    assert(stream_of(payloads.skip(k)) + none =~= stream_of(payloads.skip(k)));
}

/// Appends a payload's frame (length header + payload) to `out`, leaving
/// `out` untouched on error.
pub fn frame_into(payload: &[u8], out: &mut Vec<u8>) -> (result: Result<(), FrameError>)
    ensures
        match result {
            Ok(()) => framable(payload@) && final(out)@ == old(out)@ + frame_bytes(payload@),
            Err(FrameError::Empty) => payload@.len() == 0 && final(out)@ == old(out)@,
            Err(FrameError::TooLarge { len, max }) => payload@.len() > DEFAULT_MAX_FRAME_LEN && len
                == payload@.len() && max == DEFAULT_MAX_FRAME_LEN && final(out)@ == old(out)@,
        },
{
    let len: usize = payload.len();
    if len == 0 {
        return Err(FrameError::Empty);
    }
    if len > DEFAULT_MAX_FRAME_LEN {
        return Err(FrameError::TooLarge { len, max: DEFAULT_MAX_FRAME_LEN });
    }
    out.push((len % 256) as u8);
    out.push((len / 256 % 256) as u8);
    out.push((len / 65536 % 256) as u8);
    out.push((len / 16777216 % 256) as u8);
    let ghost headed = out@;
    assert(headed =~= old(out)@ + header_bytes(payload@.len()));
    out.extend_from_slice(payload);
    assert(out@ =~= headed + payload@);
    assert(out@ =~= old(out)@ + frame_bytes(payload@));
    Ok(())
}

/// Wraps a payload in a frame header.
pub fn frame(payload: &[u8]) -> (result: Result<Vec<u8>, FrameError>)
    ensures
        match result {
            Ok(bytes) => framable(payload@) && bytes@ == frame_bytes(payload@),
            Err(FrameError::Empty) => payload@.len() == 0,
            Err(FrameError::TooLarge { len, max }) => payload@.len() > DEFAULT_MAX_FRAME_LEN && len
                == payload@.len() && max == DEFAULT_MAX_FRAME_LEN,
        },
{
    let mut out: Vec<u8> = Vec::new();
    match frame_into(payload, &mut out) {
        Ok(()) => {
            assert(out@ =~= frame_bytes(payload@));
            Ok(out)
        },
        Err(error) => Err(error),
    }
}

/// Reassembles frames from a stream of chunks.
///
/// Feed chunks with [`push`](Self::push), then drain complete frames with
/// [`next_frame`](Self::next_frame) until it returns `Ok(None)`.
#[derive(Debug)]
pub struct FrameReader {
    buf: Vec<u8>,
    pos: usize,
    max_len: usize,
}

impl FrameReader {
    /// Nothing before `pos` is ever looked at again.
    pub closed spec fn wf(&self) -> bool {
        self.pos <= self.buf@.len()
    }

    /// The bytes received that no returned frame has consumed.
    pub closed spec fn pending(&self) -> Seq<u8> {
        self.buf@.skip(self.pos as int)
    }

    /// The longest payload this reader accepts.
    pub closed spec fn max(&self) -> usize {
        self.max_len
    }

    pub fn new() -> (reader: Self)
        ensures
            reader.wf(),
            reader.pending() == Seq::<u8>::empty(),
            reader.max() == DEFAULT_MAX_FRAME_LEN,
    {
        Self::with_max_len(DEFAULT_MAX_FRAME_LEN)
    }

    pub fn with_max_len(max_len: usize) -> (reader: Self)
        ensures
            reader.wf(),
            reader.pending() == Seq::<u8>::empty(),
            reader.max() == max_len,
    {
        let reader = Self { buf: Vec::new(), pos: 0, max_len };
        assert(reader.pending() =~= Seq::<u8>::empty());
        reader
    }

    pub fn push(&mut self, chunk: &[u8])
        requires
            old(self).wf(),
        ensures
            final(self).wf(),
            final(self).pending() == old(self).pending() + chunk@,
            final(self).max() == old(self).max(),
    {
        self.buf.extend_from_slice(chunk);
        assert(self.buf@ =~= old(self).buf@ + chunk@);
        assert(self.pending() =~= old(self).pending() + chunk@);
    }

    /// Takes the next complete frame's payload, or `None` until more bytes
    /// arrive. A header that announces no payload, or one longer than this
    /// reader accepts, is an error and stays in place.
    pub fn next_frame(&mut self) -> (result: Result<Option<Vec<u8>>, FrameError>)
        requires
            old(self).wf(),
        ensures
            final(self).wf(),
            final(self).max() == old(self).max(),
            match parse_frame(old(self).pending(), old(self).max()) {
                Parsed::Frame { payload, rest } => {
                    &&& result matches Ok(Some(taken))
                    &&& taken@ == payload
                    &&& final(self).pending() == rest
                },
                Parsed::Incomplete => {
                    &&& result matches Ok(None)
                    &&& final(self).pending() == old(self).pending()
                },
                Parsed::Invalid(error) => {
                    &&& result matches Err(raised)
                    &&& raised == error
                    &&& final(self).pending() == old(self).pending()
                },
            },
    {
        let avail: usize = self.buf.len() - self.pos;
        if avail < FRAME_HEADER_LEN {
            self.compact();
            return Ok(None);
        }
        let ghost bytes = self.pending();
        let p: usize = self.pos;
        let wide: u64 = self.buf[p] as u64 + 256 * (self.buf[p + 1] as u64) + 65536 * (self.buf[p
            + 2] as u64) + 16777216 * (self.buf[p + 3] as u64);
        assert(wide == header_len(bytes.take(4)));
        let len: usize = wide as usize;
        if len == 0 {
            return Err(FrameError::Empty);
        }
        if len > self.max_len {
            return Err(FrameError::TooLarge { len, max: self.max_len });
        }
        if avail - FRAME_HEADER_LEN < len {
            self.compact();
            return Ok(None);
        }
        let start: usize = p + FRAME_HEADER_LEN;
        let mut payload: Vec<u8> = Vec::new();
        payload.extend_from_slice(&self.buf.as_slice()[start..start + len]);
        self.pos = start + len;
        assert(payload@ =~= bytes.subrange(4, 4 + len as int));
        assert(self.pending() =~= bytes.skip(4 + len as int));
        Ok(Some(payload))
    }

    /// Drops the bytes that earlier frames consumed.
    fn compact(&mut self)
        requires
            old(self).wf(),
        ensures
            final(self).wf(),
            final(self).pending() == old(self).pending(),
            final(self).max() == old(self).max(),
            final(self).pos == 0,
    {
        if self.pos > 0 {
            let rest: Vec<u8> = self.buf.split_off(self.pos);
            self.buf = rest;
            self.pos = 0;
        }
        assert(self.pending() =~= old(self).pending());
    }
}

impl Default for FrameReader {
    fn default() -> (reader: Self)
        ensures
            reader.wf(),
            reader.pending() == Seq::<u8>::empty(),
            reader.max() == DEFAULT_MAX_FRAME_LEN,
    {
        Self::new()
    }
}

/// A frame is the length of its payload, in four bytes from the least significant to the
/// most, and then the payload.
pub proof fn law_a_header_counts_from_the_least_byte(payload: Seq<u8>)
    requires
        framable(payload),
    ensures
        ({
            let frame = frame_bytes(payload);
            &&& frame.len() == payload.len() + 4
            &&& frame[0] + 256 * frame[1] + 65536 * frame[2] + 16777216 * frame[3]
                == payload.len()
            &&& frame.skip(4) == payload
        }),
{
    law_frame_round_trip(payload, Seq::empty(), DEFAULT_MAX_FRAME_LEN);
    let frame = frame_bytes(payload);
    assert(frame + Seq::<u8>::empty() =~= frame);
    assert(frame.skip(4) =~= payload);
    let head = frame.take(4);
    assert(head[0] == frame[0] && head[1] == frame[1] && head[2] == frame[2] && head[3]
        == frame[3]);
    assert(frame.subrange(4, 4 + header_len(head) as int).len() == payload.len());
}

/// What is read at the front of bytes is what the header there counts, and what is left is
/// all that follows. A header that counts nothing, or more than is taken, is refused as
/// soon as it is there; a frame that is not all there waits.
pub proof fn law_a_frame_is_what_its_header_counts(bytes: Seq<u8>, max: usize)
    ensures
        ({
            let count = bytes[0] + 256 * bytes[1] + 65536 * bytes[2] + 16777216 * bytes[3];
            match parse_frame(bytes, max) {
                Parsed::Frame { payload, rest } => {
                    &&& bytes == bytes.take(4) + payload + rest
                    &&& payload.len() == count
                    &&& 0 < count <= max
                },
                Parsed::Invalid(FrameError::Empty) => bytes.len() >= 4 && count == 0,
                Parsed::Invalid(FrameError::TooLarge { len, max: most }) => bytes.len() >= 4
                    && count > max && len == count && most == max,
                Parsed::Incomplete => bytes.len() < 4 || (0 < count <= max && bytes.len() < 4
                    + count),
            }
        }),
{
    if bytes.len() >= 4 {
        let head = bytes.take(4);
        assert(head[0] == bytes[0] && head[1] == bytes[1] && head[2] == bytes[2] && head[3]
            == bytes[3]);
        let count = bytes[0] + 256 * bytes[1] + 65536 * bytes[2] + 16777216 * bytes[3];
        if 0 < count <= max && bytes.len() >= 4 + count {
            assert(bytes =~= bytes.take(4) + bytes.subrange(4, 4 + count) + bytes.skip(4 + count));
        }
    }
}

} // verus!
