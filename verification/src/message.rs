//! The `RequestResponse` frame: a big-endian length (payload bytes plus four),
//! a big-endian serial number, then the payload as UTF-8.

use vstd::prelude::*;
use vstd::utf8::*;
use crate::wire::{lemma_be_bytes_of_value, lemma_be_value_of_bytes, be_bytes, be_value, u32_from_be, u32_to_be, utf8_text};

verus! {

/// One line of the conversation: its serial number and its text.
#[derive(Debug)]
pub struct RequestResponse {
    pub serial: u32,
    pub payload: String,
}

impl Default for RequestResponse {
    fn default() -> (r: Self)
        ensures
            r.serial == 0,
            r.payload@ == Seq::<char>::empty(),
    {
        RequestResponse { serial: 0, payload: String::new() }
    }
}

/// The value of the length field for a payload: its UTF-8 byte count plus the
/// four bytes of the serial number, truncated to 32 bits as the sender does.
pub open spec fn length_field(payload: Seq<char>) -> u32 {
    ((encode_utf8(payload).len() + 4) % 0x1_0000_0000) as u32
}

/// The bytes a sender puts on the wire for one message.
pub open spec fn frame_bytes(serial: u32, payload: Seq<char>) -> Seq<u8> {
    be_bytes(length_field(payload)) + be_bytes(serial) + encode_utf8(payload)
}

/// Whether the payload is small enough for its length field to be exact.
pub open spec fn fits_frame(payload: Seq<char>) -> bool {
    encode_utf8(payload).len() + 4 <= u32::MAX
}

/// Appends `bytes` to `out`.
fn push_all(out: &mut Vec<u8>, bytes: &[u8])
    ensures
        final(out)@ == old(out)@ + bytes@,
{
    let mut i: usize = 0;
    while i < bytes.len()
        invariant
            i <= bytes@.len(),
            out@ == old(out)@ + bytes@.take(i as int),
        decreases bytes@.len() - i,
    {
        out.push(bytes[i]);
        i = i + 1;
        assert(bytes@.take(i as int) =~= bytes@.take(i - 1) + seq![bytes@[i - 1]]);
    }
    assert(bytes@.take(i as int) =~= bytes@);
}

/// The length field for a payload of `len` bytes, computed as the sender
/// does: `len + 4` truncated to 32 bits.
fn length_for(len: usize) -> (length: u32)
    ensures
        length == ((len + 4) % 0x1_0000_0000) as u32,
{
    let low: u64 = (len as u64) % 0x1_0000_0000;
    let total: u64 = (low + 4) % 0x1_0000_0000;
    proof {
        vstd::arithmetic::div_mod::lemma_add_mod_noop(len as int, 4, 0x1_0000_0000);
        vstd::arithmetic::div_mod::lemma_small_mod(4, 0x1_0000_0000);
    }
    total as u32
}

/// The frame that carries `r`: length field, serial number, payload bytes.
pub fn encode_frame(r: &RequestResponse) -> (bytes: Vec<u8>)
    ensures
        bytes@ == frame_bytes(r.serial, r.payload@),
{
    let payload: &[u8] = r.payload.as_str().as_bytes();
    let length = length_for(payload.len());
    let length_bytes = u32_to_be(length);
    let serial_bytes = u32_to_be(r.serial);
    let mut out: Vec<u8> = Vec::new();
    push_all(&mut out, length_bytes.as_slice());
    push_all(&mut out, serial_bytes.as_slice());
    push_all(&mut out, payload);
    out
}

/// Why a frame could not be read.
#[derive(Debug, Clone, Copy, PartialEq, Eq)]
pub enum FrameError {
    /// The length field is below four, the size of the serial number.
    LengthTooShort { length: u32 },
    /// The payload bytes are not valid UTF-8.
    InvalidUtf8,
}

/// Where a reader stands inside the frame it is reading.
#[derive(Debug, Clone, Copy, PartialEq, Eq)]
pub enum ReadState {
    /// Waiting for the four bytes of the length field.
    AwaitLength,
    /// Waiting for the four bytes of the serial number.
    AwaitSerial { length: u32 },
    /// Waiting for the `size` bytes of the payload.
    AwaitPayload { serial: u32, size: usize },
}

/// What a reader asks for after it was handed a chunk.
pub enum ReadAction {
    /// Read this many bytes next and hand them back.
    Read(usize),
    /// A whole message was read.
    Deliver(RequestResponse),
    /// The frame is malformed; reading cannot go on.
    Abort(FrameError),
}

/// The mathematical meaning of a [`ReadAction`].
pub enum Step {
    Read(nat),
    Deliver(u32, Seq<char>),
    Abort(FrameError),
}

impl View for ReadAction {
    type V = Step;

    open spec fn view(&self) -> Step {
        match self {
            ReadAction::Read(n) => Step::Read(*n as nat),
            ReadAction::Deliver(r) => Step::Deliver(r.serial, r.payload@),
            ReadAction::Abort(e) => Step::Abort(*e),
        }
    }
}

/// How many bytes a reader in state `s` needs next.
pub open spec fn bytes_wanted(s: ReadState) -> nat {
    match s {
        ReadState::AwaitLength => 4,
        ReadState::AwaitSerial { .. } => 4,
        ReadState::AwaitPayload { size, .. } => size as nat,
    }
}

/// One step of the reader: the state it moves to and what it asks for, when
/// it is in state `s` and is handed `chunk` (of `bytes_wanted(s)` bytes).
///
/// The length is read first, then the serial number; only then is a length
/// below four refused, since the serial number is read before the payload
/// size is worked out.
pub open spec fn step(s: ReadState, chunk: Seq<u8>) -> (ReadState, Step) {
    match s {
        ReadState::AwaitLength => (ReadState::AwaitSerial { length: be_value(chunk) }, Step::Read(4)),
        ReadState::AwaitSerial { length } => {
            if length < 4 {
                (ReadState::AwaitLength, Step::Abort(FrameError::LengthTooShort { length }))
            } else {
                (
                    ReadState::AwaitPayload { serial: be_value(chunk), size: (length - 4) as usize },
                    Step::Read((length - 4) as nat),
                )
            }
        },
        ReadState::AwaitPayload { serial, .. } => {
            if valid_utf8(chunk) {
                (ReadState::AwaitLength, Step::Deliver(serial, decode_utf8(chunk)))
            } else {
                (ReadState::AwaitLength, Step::Abort(FrameError::InvalidUtf8))
            }
        },
    }
}

/// Reads frames from a byte stream, one requested chunk at a time.
pub struct FrameReader {
    pub state: ReadState,
}

impl FrameReader {
    /// A reader at the start of a frame.
    pub fn new() -> (r: FrameReader)
        ensures
            r.state == ReadState::AwaitLength,
    {
        FrameReader { state: ReadState::AwaitLength }
    }

    /// How many bytes to read before the next call of [`FrameReader::feed`].
    pub fn wanted(&self) -> (n: usize)
        ensures
            n as nat == bytes_wanted(self.state),
    {
        match self.state {
            ReadState::AwaitLength => 4,
            ReadState::AwaitSerial { .. } => 4,
            ReadState::AwaitPayload { size, .. } => size,
        }
    }

    /// Hands the reader the chunk it asked for and returns what to do next.
    pub fn feed(&mut self, chunk: &[u8]) -> (act: ReadAction)
        requires
            chunk@.len() == bytes_wanted(old(self).state),
        ensures
            (final(self).state, act@) == step(old(self).state, chunk@),
            act@ matches Step::Read(k) ==> k == bytes_wanted(final(self).state),
            !(act@ is Read) ==> final(self).state == ReadState::AwaitLength,
    {
        match self.state {
            ReadState::AwaitLength => {
                let length = u32_from_be(chunk);
                self.state = ReadState::AwaitSerial { length };
                ReadAction::Read(4)
            },
            ReadState::AwaitSerial { length } => {
                if length < 4 {
                    self.state = ReadState::AwaitLength;
                    ReadAction::Abort(FrameError::LengthTooShort { length })
                } else {
                    let serial = u32_from_be(chunk);
                    let size = (length - 4) as usize;
                    self.state = ReadState::AwaitPayload { serial, size };
                    ReadAction::Read(size)
                }
            },
            ReadState::AwaitPayload { serial, .. } => {
                self.state = ReadState::AwaitLength;
                match utf8_text(chunk) {
                    Some(payload) => ReadAction::Deliver(RequestResponse { serial, payload }),
                    None => ReadAction::Abort(FrameError::InvalidUtf8),
                }
            },
        }
    }
}

/// A reader in state `s` at the start of the stream `bytes` is handed the
/// chunk it asks for: the state it moves to, what it asks for next, and how
/// many bytes it took; `None` when the stream is shorter than that chunk.
pub open spec fn drive_step(s: ReadState, bytes: Seq<u8>) -> Option<(ReadState, Step, nat)> {
    let n = bytes_wanted(s);
    if bytes.len() < n {
        None
    } else {
        let (t, a) = step(s, bytes.take(n as int));
        Some((t, a, n))
    }
}

/// A fresh reader driven over the start of `bytes`, each time handed the
/// chunk it asks for, until it delivers or refuses a frame: what it ends with
/// and how many bytes it took, or `None` when the stream ends before that.
pub open spec fn read_frame(bytes: Seq<u8>) -> Option<(Step, nat)> {
    match drive_step(ReadState::AwaitLength, bytes) {
        None => None,
        Some((s1, a1, n1)) => match a1 {
            Step::Read(_) => match drive_step(s1, bytes.skip(n1 as int)) {
                None => None,
                Some((s2, a2, n2)) => match a2 {
                    Step::Read(_) => match drive_step(s2, bytes.skip((n1 + n2) as int)) {
                        None => None,
                        Some((_, a3, n3)) => Some((a3, n1 + n2 + n3)),
                    },
                    other => Some((other, n1 + n2)),
                },
            },
            other => Some((other, n1)),
        },
    }
}

/// One reader, starting in state `s`, driven over `bytes` for at most `fuel`
/// chunks, each time handed the chunk it asks for and keeping its state from
/// chunk to chunk: everything it delivers or refuses, in order, up to the
/// first refusal or the end of the stream.
pub open spec fn run_reader(s: ReadState, bytes: Seq<u8>, fuel: nat) -> Seq<Step>
    decreases fuel,
{
    if fuel == 0 {
        Seq::empty()
    } else {
        match drive_step(s, bytes) {
            None => Seq::empty(),
            Some((t, a, n)) => match a {
                Step::Read(_) => run_reader(t, bytes.skip(n as int), (fuel - 1) as nat),
                Step::Deliver(_, _) => seq![a] + run_reader(t, bytes.skip(n as int), (fuel - 1) as nat),
                Step::Abort(_) => seq![a],
            },
        }
    }
}

/// A fresh reader driven over a whole stream (with enough chunks for every
/// frame it can hold): the outcome of each frame in order, up to the first
/// refused frame or the end of the stream.
pub open spec fn read_frames(bytes: Seq<u8>) -> Seq<Step> {
    run_reader(ReadState::AwaitLength, bytes, 3 * bytes.len() + 3)
}

/// The bytes of several messages sent one after the other.
pub open spec fn frames_bytes(msgs: Seq<(u32, Seq<char>)>) -> Seq<u8>
    decreases msgs.len(),
{
    if msgs.len() == 0 {
        Seq::empty()
    } else {
        frame_bytes(msgs[0].0, msgs[0].1) + frames_bytes(msgs.drop_first())
    }
}

/// A frame's length field counts the bytes that follow it, when the payload
/// is small enough for the field to hold that count.
pub proof fn lemma_length_field_counts_rest(serial: u32, payload: Seq<char>)
    requires
        fits_frame(payload),
    ensures
        be_value(frame_bytes(serial, payload)) == frame_bytes(serial, payload).len() - 4,
{
    let n = encode_utf8(payload).len();
    lemma_be_value_of_bytes(length_field(payload));
    assert(frame_bytes(serial, payload).len() == 8 + n);
    assert(frame_bytes(serial, payload).subrange(0, 4) =~= be_bytes(length_field(payload)));
    assert(be_value(frame_bytes(serial, payload)) == be_value(be_bytes(length_field(payload))));
}

/// A frame whose length field is below four is refused once its serial
/// number has been read, after eight bytes, whatever follows.
pub proof fn lemma_short_length_refused(bytes: Seq<u8>)
    requires
        bytes.len() >= 8,
        be_value(bytes) < 4,
    ensures
        read_frame(bytes) == Some(
            (Step::Abort(FrameError::LengthTooShort { length: be_value(bytes) }), 8nat),
        ),
{
    assert(be_value(bytes.take(4)) == be_value(bytes));
    assert(bytes.skip(4).len() >= 4);
}

/// When the reader asks to read `k` bytes, `k` is what it asks for in the
/// state it moved to, so that state is handed exactly those bytes.
pub proof fn lemma_read_asks_for_wanted(s: ReadState, chunk: Seq<u8>)
    ensures
        step(s, chunk).1 matches Step::Read(k) ==> k == bytes_wanted(step(s, chunk).0),
{
}

/// Once a frame is delivered or refused, the reader is back at the start of
/// a frame, waiting for a length field.
pub proof fn lemma_frame_end_resets_reader(s: ReadState, chunk: Seq<u8>)
    ensures
        !(step(s, chunk).1 is Read) ==> step(s, chunk).0 == ReadState::AwaitLength,
{
}

/// The three chunks a fresh reader asks for over a frame, followed by
/// anything: the length field, the serial number and the payload bytes, and
/// the message delivered at the end with the reader back at a frame start.
proof fn lemma_chunks_of_frame(serial: u32, payload: Seq<char>, rest: Seq<u8>)
    requires
        fits_frame(payload),
    ensures
        ({
            let b = frame_bytes(serial, payload) + rest;
            let n = encode_utf8(payload).len();
            &&& drive_step(ReadState::AwaitLength, b) == Some(
                (ReadState::AwaitSerial { length: (n + 4) as u32 }, Step::Read(4), 4nat),
            )
            &&& drive_step(ReadState::AwaitSerial { length: (n + 4) as u32 }, b.skip(4)) == Some(
                (ReadState::AwaitPayload { serial, size: n as usize }, Step::Read(n), 4nat),
            )
            &&& drive_step(ReadState::AwaitPayload { serial, size: n as usize }, b.skip(8)) == Some(
                (ReadState::AwaitLength, Step::Deliver(serial, payload), n),
            )
            &&& b.skip(8 + n as int) == rest
            &&& frame_bytes(serial, payload).len() == 8 + n
        }),
{
    let f = frame_bytes(serial, payload);
    let b = f + rest;
    let body = encode_utf8(payload);
    let n = body.len();
    lemma_be_value_of_bytes(length_field(payload));
    lemma_be_value_of_bytes(serial);
    assert(b.take(4) =~= be_bytes(length_field(payload)));
    assert(b.skip(4).take(4) =~= be_bytes(serial));
    assert(b.skip(8).take(n as int) =~= body);
    assert(b.skip(8 + n as int) =~= rest);
    assert(length_field(payload) == n + 4);
    encode_utf8_valid_utf8(payload);
    encode_utf8_decode_utf8(payload);
}

/// Reading what was written gives back the message: a fresh reader handed
/// the frame of `(serial, payload)`, followed by anything, delivers exactly
/// that message and takes exactly the frame's bytes.
pub proof fn lemma_read_frame_of_written(serial: u32, payload: Seq<char>, rest: Seq<u8>)
    requires
        fits_frame(payload),
    ensures
        read_frame(frame_bytes(serial, payload) + rest)
            == Some((Step::Deliver(serial, payload), frame_bytes(serial, payload).len())),
{
    lemma_chunks_of_frame(serial, payload, rest);
    let b = frame_bytes(serial, payload) + rest;
    assert(b.skip(4).skip(4) =~= b.skip(8));
}

/// Every message has one frame only: whatever bytes a reader delivers a
/// message from are exactly the frame a sender writes for that message.
pub proof fn lemma_delivered_frame_is_canonical(bytes: Seq<u8>)
    requires
        read_frame(bytes) matches Some((Step::Deliver(_, _), _)),
    ensures
        read_frame(bytes) matches Some((Step::Deliver(serial, payload), n)) ==> {
            &&& fits_frame(payload)
            &&& frame_bytes(serial, payload) == bytes.take(n as int)
        },
{
    let length = be_value(bytes.take(4));
    let serial = be_value(bytes.skip(4).take(4));
    let size = (length - 4) as nat;
    let body = bytes.skip(8).take(size as int);
    assert(bytes.skip(4).skip(4) =~= bytes.skip(8));
    let payload = decode_utf8(body);
    assert(length >= 4);
    assert(valid_utf8(body));
    decode_utf8_encode_utf8(body);
    assert(encode_utf8(payload) == body);
    lemma_be_bytes_of_value(bytes.take(4));
    lemma_be_bytes_of_value(bytes.skip(4).take(4));
    assert(bytes.take(4).take(4) =~= bytes.take(4));
    assert(bytes.skip(4).take(4).take(4) =~= bytes.skip(4).take(4));
    assert(length_field(payload) == length);
    assert(frame_bytes(serial, payload) =~= bytes.take(8 + size as int));
}

/// The frames of `msgs` take at least eight bytes each.
proof fn lemma_frames_bytes_len(msgs: Seq<(u32, Seq<char>)>)
    ensures
        frames_bytes(msgs).len() >= 8 * msgs.len(),
    decreases msgs.len(),
{
    if msgs.len() > 0 {
        lemma_frames_bytes_len(msgs.drop_first());
    }
}

/// One reader, kept from frame to frame, driven over messages written one
/// after the other with at least three chunks per message, delivers every
/// message in order and nothing else.
proof fn lemma_run_reader_over_frames(msgs: Seq<(u32, Seq<char>)>, fuel: nat)
    requires
        forall|i: int| 0 <= i < msgs.len() ==> fits_frame(#[trigger] msgs[i].1),
        fuel >= 3 * msgs.len(),
    ensures
        run_reader(ReadState::AwaitLength, frames_bytes(msgs), fuel) == msgs.map_values(
            |m: (u32, Seq<char>)| Step::Deliver(m.0, m.1),
        ),
    decreases msgs.len(),
{
    let expected = msgs.map_values(|m: (u32, Seq<char>)| Step::Deliver(m.0, m.1));
    if msgs.len() == 0 {
        assert(frames_bytes(msgs).len() == 0);
        assert(run_reader(ReadState::AwaitLength, frames_bytes(msgs), fuel) =~= expected);
    } else {
        let m = msgs[0];
        let tail = msgs.drop_first();
        let rest = frames_bytes(tail);
        assert(fits_frame(msgs[0].1));
        assert forall|i: int| 0 <= i < tail.len() implies fits_frame(#[trigger] tail[i].1) by {
            assert(tail[i] == msgs[i + 1]);
        }
        lemma_run_reader_over_frames(tail, (fuel - 3) as nat);
        lemma_chunks_of_frame(m.0, m.1, rest);
        let b = frames_bytes(msgs);
        assert(b == frame_bytes(m.0, m.1) + rest);
        let n = encode_utf8(m.1).len();
        assert(b.skip(4).skip(4) =~= b.skip(8));
        assert(b.skip(8).skip(n as int) =~= b.skip(8 + n as int));
        let s1 = ReadState::AwaitSerial { length: (n + 4) as u32 };
        let s2 = ReadState::AwaitPayload { serial: m.0, size: n as usize };
        assert(run_reader(s2, b.skip(8), (fuel - 2) as nat) == seq![Step::Deliver(m.0, m.1)]
            + run_reader(ReadState::AwaitLength, rest, (fuel - 3) as nat));
        assert(run_reader(s1, b.skip(4), (fuel - 1) as nat) == run_reader(s2, b.skip(8), (fuel - 2) as nat));
        assert(run_reader(ReadState::AwaitLength, b, fuel) == run_reader(s1, b.skip(4), (fuel - 1) as nat));
        assert(run_reader(ReadState::AwaitLength, b, fuel) =~= expected);
    }
}

/// Messages written one after the other are read back in the same order:
/// one reader, kept from frame to frame and each time handed the chunk it
/// asks for, delivers every message over the concatenated frames, and
/// nothing else.
pub proof fn lemma_read_frames_of_written(msgs: Seq<(u32, Seq<char>)>)
    requires
        forall|i: int| 0 <= i < msgs.len() ==> fits_frame(#[trigger] msgs[i].1),
    ensures
        read_frames(frames_bytes(msgs)) == msgs.map_values(|m: (u32, Seq<char>)| Step::Deliver(m.0, m.1)),
{
    lemma_frames_bytes_len(msgs);
    lemma_run_reader_over_frames(msgs, 3 * frames_bytes(msgs).len() + 3);
}

} // verus!
