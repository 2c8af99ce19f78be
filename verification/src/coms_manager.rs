//! The two ends of the link as seen from the device: the receive pipeline, which
//! gathers bytes as they arrive and hands out one message at a time, and the transmit
//! path, which numbers the messages and frames them.
//!
//! The manager owns no hardware. Whoever drives the serial line feeds it the bytes that
//! arrive and writes out the frames that it returns; whoever holds the wire format
//! turns payloads into messages and back.

use crate::buffer::{
    buffer_as_slice, buffer_clear, buffer_extend, buffer_new, buffer_push, contents, ByteBuffer,
    BUFFER_CAPACITY,
};
use crate::codec::{
    boundary_index, decode, decode_spec, encode, escape_free, escape_pending, find_boundary,
    frame_of, frame_payload, has_boundary, lemma_boundary_index, lemma_first_boundary_unique,
    lemma_frame_round_trip, lemma_unstuffed_len, lemma_unstuffed_prefix, remaining_of,
    unstuffed, DecodeResult, LinkError, Outcome, DELIMITER, ESCAPE, MAX_FRAME_SIZE,
};
use crate::messages::{Data, Message};
use vstd::prelude::*;
use vstd::slice::slice_subrange;

verus! {

/// What a [`ComsManager`] holds, as plain values.
pub struct LinkState {
    /// The sequence id that the next message sent will carry.
    pub next_id: u8,
    /// The bytes that have arrived and are not consumed yet, oldest first.
    pub buffered: Seq<u8>,
    /// Whether an end of frame may have arrived since the last draining.
    pub ready: bool,
}

impl LinkState {
    /// A manager that has sent and received nothing.
    pub open spec fn fresh() -> LinkState {
        LinkState { next_id: 0, buffered: Seq::empty(), ready: false }
    }

    /// The state after `byte` has arrived. While there is room the byte is kept, and a
    /// delimiter raises the flag. A byte that finds the buffer full is dropped and
    /// raises the flag, so that the buffer gets drained.
    pub open spec fn fed(self, byte: u8) -> LinkState {
        if self.buffered.len() < BUFFER_CAPACITY {
            LinkState {
                next_id: self.next_id,
                buffered: self.buffered.push(byte),
                ready: self.ready || byte == DELIMITER,
            }
        } else {
            LinkState { next_id: self.next_id, buffered: self.buffered, ready: true }
        }
    }

    /// The state after the bytes of `bytes` have arrived one after the other.
    pub open spec fn fed_all(self, bytes: Seq<u8>) -> LinkState
        decreases bytes.len(),
    {
        if bytes.len() == 0 {
            self
        } else {
            self.fed_all(bytes.drop_last()).fed(bytes.last())
        }
    }

    /// Whether the buffer is full and holds no complete frame. Such a buffer can take
    /// no further byte, so draining it throws its bytes away.
    pub open spec fn overrun(self) -> bool {
        self.buffered.len() >= BUFFER_CAPACITY && !has_boundary(self.buffered)
    }

    /// The message that draining hands out, where `message` is what deserialising the
    /// payload of the first buffered frame gave.
    pub open spec fn delivered(self, message: Option<Message>) -> Option<Message> {
        match decode_spec(self.buffered, message) {
            Outcome::Decoded { message, .. } => Some(message),
            _ => None,
        }
    }

    /// The state after draining. The first frame is taken off the buffer, whether it
    /// held a message or not; bytes of a frame that is not complete yet stay; an
    /// overrun buffer is emptied; the flag is lowered.
    pub open spec fn drained(self, message: Option<Message>) -> LinkState {
        LinkState {
            next_id: self.next_id,
            buffered: if self.overrun() {
                Seq::empty()
            } else {
                remaining_of(decode_spec(self.buffered, message))
            },
            ready: false,
        }
    }

    /// The state after a message has been sent: the sequence id moves on by one and
    /// wraps from 255 to 0.
    pub open spec fn sent(self) -> LinkState {
        LinkState {
            next_id: if self.next_id == 255 {
                0u8
            } else {
                (self.next_id + 1) as u8
            },
            buffered: self.buffered,
            ready: self.ready,
        }
    }

    /// The state after `n` messages have been sent.
    pub open spec fn sent_times(self, n: nat) -> LinkState
        decreases n,
    {
        if n == 0 {
            self
        } else {
            self.sent_times((n - 1) as nat).sent()
        }
    }
}

/// The link endpoint of one device.
pub struct ComsManager {
    packet_id: u8,
    buffer: ByteBuffer,
    new_message: bool,
}

impl View for ComsManager {
    type V = LinkState;

    closed spec fn view(&self) -> LinkState {
        LinkState {
            next_id: self.packet_id,
            buffered: contents(self.buffer),
            ready: self.new_message,
        }
    }
}

impl ComsManager {
    /// A manager that has sent and received nothing.
    pub fn new() -> (manager: ComsManager)
        ensures
            manager@ == LinkState::fresh(),
    {
        ComsManager { packet_id: 0, buffer: buffer_new(), new_message: false }
    }

    /// Whether a byte has arrived since the last draining that may have completed a
    /// frame.
    pub fn has_new_message(&self) -> (ready: bool)
        ensures
            ready == self@.ready,
    {
        self.new_message
    }

    /// Takes the stuffing out of `stuffed`: an escape byte is dropped and the byte
    /// after it is kept as it is.
    pub fn unstuff_message(stuffed: &[u8]) -> (plain: ByteBuffer)
        requires
            unstuffed(stuffed@).len() <= BUFFER_CAPACITY,
        ensures
            contents(plain) == unstuffed(stuffed@),
    {
        let mut plain = buffer_new();
        let mut escape: bool = false;
        let mut i: usize = 0;
        proof {
            assert(stuffed@.take(0) =~= Seq::<u8>::empty());
        }
        while i < stuffed.len()
            invariant
                i <= stuffed@.len(),
                escape == escape_pending(stuffed@.take(i as int)),
                contents(plain) == unstuffed(stuffed@.take(i as int)),
                unstuffed(stuffed@).len() <= BUFFER_CAPACITY,
            decreases stuffed@.len() - i,
        {
            let byte: u8 = stuffed[i];
            proof {
                let now = stuffed@.take(i + 1);
                assert(now.drop_last() =~= stuffed@.take(i as int));
                assert(now.last() == byte);
                lemma_unstuffed_prefix(stuffed@, i + 1);
            }
            if escape {
                let _ = buffer_push(&mut plain, byte);
                escape = false;
            } else if byte == ESCAPE {
                escape = true;
            } else {
                let _ = buffer_push(&mut plain, byte);
            }
            i = i + 1;
        }
        proof {
            assert(stuffed@.take(stuffed@.len() as int) =~= stuffed@);
        }
        plain
    }

    /// The message that the next call of `send` goes with: `data` under the sequence
    /// id that is next.
    pub fn next_message(&self, data: &Data) -> (message: Message)
        ensures
            message.id == self@.next_id,
            message.data == *data,
    {
        Message { id: self.packet_id, data: *data }
    }

    /// Frames a serialised message for the wire and moves the sequence id on.
    /// `serialized` is the serialisation of `next_message`. Where its frame would be
    /// longer than [`MAX_FRAME_SIZE`], nothing is framed and the sequence id stays.
    pub fn send(&mut self, serialized: &[u8]) -> (frame: Result<ByteBuffer, LinkError>)
        ensures
            frame is Ok <==> frame_of(serialized@).len() <= MAX_FRAME_SIZE,
            frame is Ok ==> contents(frame->Ok_0) == frame_of(serialized@) && final(self)@ == old(
                self,
            )@.sent(),
            frame is Err ==> frame->Err_0 == LinkError::EncodingOverflow && final(self)@ == old(
                self,
            )@,
    {
        match encode(serialized) {
            Ok(frame) => {
                self.packet_id = self.packet_id.wrapping_add(1);
                Ok(frame)
            },
            Err(_) => Err(LinkError::EncodingOverflow),
        }
    }

    /// Takes in one byte that has arrived.
    pub fn read_byte(&mut self, byte: u8)
        ensures
            final(self)@ == old(self)@.fed(byte),
    {
        let pushed = buffer_push(&mut self.buffer, byte);
        if pushed.is_err() || byte == DELIMITER {
            self.new_message = true;
        }
    }

    /// The payload of the first complete frame in the buffer, with the stuffing taken
    /// out, or nothing where no frame is complete yet. This is what is to be
    /// deserialised before `receive` is called.
    pub fn frame(&self) -> (payload: Option<ByteBuffer>)
        ensures
            payload is Some <==> has_boundary(self@.buffered),
            payload is Some ==> contents(payload->Some_0) == frame_payload(self@.buffered),
    {
        let window = buffer_as_slice(&self.buffer);
        match find_boundary(window) {
            None => None,
            Some(k) => {
                let enclosed = slice_subrange(window, 0, k);
                proof {
                    assert(enclosed@ =~= window@.take(k as int));
                    lemma_unstuffed_len(enclosed@);
                    lemma_first_boundary_unique(window@, k as int);
                }
                Some(Self::unstuff_message(enclosed))
            },
        }
    }

    /// Drains the buffer: takes the first frame off it and hands out its message.
    /// `message` is what deserialising `frame()` gave, and is not looked at where no
    /// frame is complete.
    pub fn receive(&mut self, message: Option<Message>) -> (delivered: Option<Message>)
        ensures
            final(self)@ == old(self)@.drained(message),
            delivered == old(self)@.delivered(message),
    {
        let mut kept = buffer_new();
        let window = buffer_as_slice(&self.buffer);
        proof {
            if has_boundary(window@) {
                lemma_boundary_index(window@);
            }
        }
        let delivered = match decode(window, message) {
            DecodeResult::Consumed => None,
            DecodeResult::NeedMore(remaining) => {
                if remaining.len() < BUFFER_CAPACITY {
                    let _ = buffer_extend(&mut kept, remaining);
                }
                assert(contents(kept) =~= old(self)@.drained(message).buffered);
                None
            },
            DecodeResult::Decoded(message, remaining) => {
                let _ = buffer_extend(&mut kept, remaining);
                assert(contents(kept) =~= remaining@);
                Some(message)
            },
            DecodeResult::Rejected(remaining) => {
                let _ = buffer_extend(&mut kept, remaining);
                assert(contents(kept) =~= remaining@);
                None
            },
        };
        buffer_clear(&mut self.buffer);
        let _ = buffer_extend(&mut self.buffer, buffer_as_slice(&kept));
        proof {
            assert(contents(self.buffer) =~= contents(kept));
        }
        self.new_message = false;
        delivered
    }
}

/// Bytes that arrive while there is room are buffered in the order of their arrival;
/// the flag is up afterwards where it was up before or a delimiter was among them.
pub proof fn lemma_fed_all(state: LinkState, bytes: Seq<u8>)
    requires
        state.buffered.len() + bytes.len() <= BUFFER_CAPACITY,
    ensures
        state.fed_all(bytes).buffered == state.buffered + bytes,
        state.fed_all(bytes).next_id == state.next_id,
        state.fed_all(bytes).ready == (state.ready || exists|i: int|
            0 <= i < bytes.len() && bytes[i] == DELIMITER),
    decreases bytes.len(),
{
    if bytes.len() == 0 {
        assert(state.buffered + bytes =~= state.buffered);
    } else {
        let front = bytes.drop_last();
        lemma_fed_all(state, front);
        assert(state.buffered + bytes =~= (state.buffered + front).push(bytes.last()));
        if exists|i: int| 0 <= i < front.len() && front[i] == DELIMITER {
            let i = choose|i: int| 0 <= i < front.len() && front[i] == DELIMITER;
            assert(bytes[i] == DELIMITER);
        }
        if bytes.last() == DELIMITER {
            assert(bytes[bytes.len() - 1] == DELIMITER);
        }
        if exists|i: int| 0 <= i < bytes.len() && bytes[i] == DELIMITER {
            let i = choose|i: int| 0 <= i < bytes.len() && bytes[i] == DELIMITER;
            if i < front.len() {
                assert(front[i] == DELIMITER);
            }
        }
    }
}

/// Feeding bytes one at a time and then draining once is decoding the bytes at once.
/// For at most a buffer full of bytes fed to a fresh manager: the buffer holds the
/// bytes, draining hands out the message that decoding the bytes gives, and, unless
/// the bytes fill the buffer without completing a frame, leaves what decoding leaves.
pub proof fn lemma_feed_then_drain(bytes: Seq<u8>, message: Option<Message>)
    requires
        bytes.len() <= BUFFER_CAPACITY,
    ensures
        LinkState::fresh().fed_all(bytes).buffered == bytes,
        LinkState::fresh().fed_all(bytes).delivered(message) == (match decode_spec(
            bytes,
            message,
        ) {
            Outcome::Decoded { message, .. } => Some(message),
            _ => None,
        }),
        bytes.len() < BUFFER_CAPACITY || has_boundary(bytes) ==> LinkState::fresh().fed_all(
            bytes,
        ).drained(message).buffered == remaining_of(decode_spec(bytes, message)),
{
    lemma_fed_all(LinkState::fresh(), bytes);
    assert(Seq::<u8>::empty() + bytes =~= bytes);
}

/// A frame that is fed to a fresh manager byte by byte comes out as its message. For
/// every payload without escape bytes whose frame fits the buffer: the flag is up,
/// the frame offered for deserialising is the payload, and draining with the message
/// of the payload hands that message out and leaves the buffer empty.
pub proof fn lemma_frame_through_pipeline(payload: Seq<u8>, message: Message)
    requires
        escape_free(payload),
        frame_of(payload).len() <= BUFFER_CAPACITY,
    ensures
        LinkState::fresh().fed_all(frame_of(payload)).ready,
        has_boundary(LinkState::fresh().fed_all(frame_of(payload)).buffered),
        frame_payload(LinkState::fresh().fed_all(frame_of(payload)).buffered) == payload,
        LinkState::fresh().fed_all(frame_of(payload)).delivered(Some(message)) == Some(message),
        LinkState::fresh().fed_all(frame_of(payload)).drained(Some(message)).buffered
            == Seq::<u8>::empty(),
{
    let frame = frame_of(payload);
    lemma_fed_all(LinkState::fresh(), frame);
    assert(Seq::<u8>::empty() + frame =~= frame);
    assert(frame[frame.len() - 1] == DELIMITER);
    lemma_frame_round_trip(payload, Seq::empty(), message);
    assert(frame + Seq::<u8>::empty() =~= frame);
}

/// Draining loses no byte and repeats none. Unless the buffer is overrun, what was
/// buffered is the frame that was taken off, up to and with its delimiter, followed
/// by what stays buffered; where no frame is complete, all of it stays.
pub proof fn lemma_drain_conserves(state: LinkState, message: Option<Message>)
    requires
        !state.overrun(),
    ensures
        has_boundary(state.buffered) ==> state.buffered.take(boundary_index(state.buffered) + 1)
            + state.drained(message).buffered == state.buffered,
        !has_boundary(state.buffered) ==> state.drained(message).buffered == state.buffered,
{
    let b = state.buffered;
    if has_boundary(b) {
        lemma_boundary_index(b);
        let k = boundary_index(b);
        assert(b.take(k + 1) + b.skip(k + 1) =~= b);
    } else {
        assert(state.drained(message).buffered =~= b);
    }
}

/// The sequence ids count up by one and wrap: after `n` messages the id is the id at
/// the start plus `n`, modulo 256. So 256 messages in a row from id 0 carry the ids 0
/// to 255, each once, and the next one carries 0 again.
pub proof fn lemma_sequence_ids(state: LinkState, n: nat)
    ensures
        state.sent_times(n).next_id == (state.next_id + n) % 256,
        state.sent_times(n).buffered == state.buffered,
        state.sent_times(n).ready == state.ready,
    decreases n,
{
    if n > 0 {
        lemma_sequence_ids(state, (n - 1) as nat);
    }
}

} // verus!
