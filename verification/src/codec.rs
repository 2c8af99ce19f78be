//! The frame codec: byte stuffing of a payload into a self-delimiting frame, and the
//! search of a byte window for the first complete frame.
//!
//! A frame is the payload with an escape byte put before every byte that equals the
//! delimiter, followed by one raw delimiter. A reader walks the bytes in order: after an
//! escape byte the next byte is taken as it is, and a delimiter that is not taken so
//! ends the frame.

use crate::buffer::{buffer_len, buffer_new, buffer_push, contents, ByteBuffer};
use crate::messages::Message;
use vstd::prelude::*;
use vstd::slice::slice_subrange;

verus! {

/// The byte that ends a frame.
pub const DELIMITER: u8 = 0xFF;

/// The byte that is put before a delimiter inside a frame.
pub const ESCAPE: u8 = 0xFE;

/// The largest number of bytes in a frame, the closing delimiter included.
pub const MAX_FRAME_SIZE: usize = 64;

/// Why nothing was put on the wire.
#[derive(Clone, Copy, Debug, PartialEq, Eq, Structural)]
pub enum LinkError {
    /// The frame of a payload would be longer than [`MAX_FRAME_SIZE`].
    FrameTooLarge,
    /// A message is too large to be sent: it does not fit its buffers.
    EncodingOverflow,
}

/// `payload` with an escape byte before every delimiter byte.
pub open spec fn stuffed(payload: Seq<u8>) -> Seq<u8>
    decreases payload.len(),
{
    if payload.len() == 0 {
        Seq::empty()
    } else if payload.last() == DELIMITER {
        stuffed(payload.drop_last()).push(ESCAPE).push(DELIMITER)
    } else {
        stuffed(payload.drop_last()).push(payload.last())
    }
}

/// The frame of `payload`: the stuffed payload and the closing delimiter.
pub open spec fn frame_of(payload: Seq<u8>) -> Seq<u8> {
    stuffed(payload).push(DELIMITER)
}

/// Whether a reader that has walked `bytes` takes the next byte as it is: the last
/// byte was an escape byte that was not itself escaped.
pub open spec fn escape_pending(bytes: Seq<u8>) -> bool
    decreases bytes.len(),
{
    if bytes.len() == 0 {
        false
    } else {
        !escape_pending(bytes.drop_last()) && bytes.last() == ESCAPE
    }
}

/// What a reader keeps of `bytes`: every byte but the escape bytes that it acts on.
pub open spec fn unstuffed(bytes: Seq<u8>) -> Seq<u8>
    decreases bytes.len(),
{
    if bytes.len() == 0 {
        Seq::empty()
    } else if !escape_pending(bytes.drop_last()) && bytes.last() == ESCAPE {
        unstuffed(bytes.drop_last())
    } else {
        unstuffed(bytes.drop_last()).push(bytes.last())
    }
}

/// Whether a frame ends at index `k` of `window`: the byte there is a delimiter and
/// is not escaped.
pub open spec fn is_boundary(window: Seq<u8>, k: int) -> bool {
    0 <= k < window.len() && window[k] == DELIMITER && !escape_pending(window.take(k))
}

/// Whether the first frame of `window` ends at index `k`.
pub open spec fn first_boundary(window: Seq<u8>, k: int) -> bool {
    is_boundary(window, k) && forall|j: int| 0 <= j < k ==> !is_boundary(window, j)
}

/// Whether `window` holds a complete frame.
pub open spec fn has_boundary(window: Seq<u8>) -> bool {
    exists|k: int| is_boundary(window, k)
}

/// The index at which the first frame of a window that holds one ends.
pub open spec fn boundary_index(window: Seq<u8>) -> int {
    choose|k: int| first_boundary(window, k)
}

/// The payload of the first frame of a window that holds one.
pub open spec fn frame_payload(window: Seq<u8>) -> Seq<u8> {
    unstuffed(window.take(boundary_index(window)))
}

/// What decoding a window gives, over sequences.
pub enum Outcome {
    Consumed,
    NeedMore { remaining: Seq<u8> },
    Decoded { message: Message, remaining: Seq<u8> },
    Rejected { remaining: Seq<u8> },
}

/// The bytes that an outcome leaves for the next decoding.
pub open spec fn remaining_of(outcome: Outcome) -> Seq<u8> {
    match outcome {
        Outcome::Consumed => Seq::empty(),
        Outcome::NeedMore { remaining } => remaining,
        Outcome::Decoded { remaining, .. } => remaining,
        Outcome::Rejected { remaining } => remaining,
    }
}

/// Decoding `window`, where `message` is what deserialising the payload of its first
/// frame gave. An empty window is consumed. A window without a complete frame is left
/// whole. Otherwise the first frame is taken off the front, and it is decoded where
/// its payload was a message and rejected where it was not.
pub open spec fn decode_spec(window: Seq<u8>, message: Option<Message>) -> Outcome {
    if window.len() == 0 {
        Outcome::Consumed
    } else if !has_boundary(window) {
        Outcome::NeedMore { remaining: window }
    } else {
        let remaining = window.skip(boundary_index(window) + 1);
        match message {
            Some(message) => Outcome::Decoded { message, remaining },
            None => Outcome::Rejected { remaining },
        }
    }
}

/// What decoding a window gave. The bytes left over are a part of the window.
#[derive(Clone, Copy, Debug, PartialEq, Eq)]
pub enum DecodeResult<'a> {
    /// The window was empty.
    Consumed,
    /// No complete frame yet: the whole window is left for later.
    NeedMore(&'a [u8]),
    /// The first frame held a message; the bytes after the frame are left.
    Decoded(Message, &'a [u8]),
    /// The first frame did not hold a message; the bytes after the frame are left.
    Rejected(&'a [u8]),
}

impl<'a> View for DecodeResult<'a> {
    type V = Outcome;

    open spec fn view(&self) -> Outcome {
        match *self {
            DecodeResult::Consumed => Outcome::Consumed,
            DecodeResult::NeedMore(remaining) => Outcome::NeedMore { remaining: remaining@ },
            DecodeResult::Decoded(message, remaining) => Outcome::Decoded {
                message,
                remaining: remaining@,
            },
            DecodeResult::Rejected(remaining) => Outcome::Rejected { remaining: remaining@ },
        }
    }
}

/// The first frame of a window ends at one index only.
pub proof fn lemma_first_boundary_unique(window: Seq<u8>, k: int)
    requires
        first_boundary(window, k),
    ensures
        has_boundary(window),
        boundary_index(window) == k,
{
    let c = boundary_index(window);
    assert(first_boundary(window, c));
    if c < k {
        assert(!is_boundary(window, c));
    }
    if k < c {
        assert(!is_boundary(window, k));
    }
}

/// Before an end of frame there is a first one.
proof fn lemma_least_boundary(window: Seq<u8>, k: int)
    requires
        is_boundary(window, k),
    ensures
        exists|j: int| first_boundary(window, j),
    decreases k,
{
    if forall|j: int| 0 <= j < k ==> !is_boundary(window, j) {
        assert(first_boundary(window, k));
    } else {
        let j = choose|j: int| 0 <= j < k && is_boundary(window, j);
        lemma_least_boundary(window, j);
    }
}

/// In a window that holds a complete frame, `boundary_index` is where the first
/// frame ends.
pub proof fn lemma_boundary_index(window: Seq<u8>)
    requires
        has_boundary(window),
    ensures
        first_boundary(window, boundary_index(window)),
        0 <= boundary_index(window) < window.len(),
{
    let k = choose|k: int| is_boundary(window, k);
    lemma_least_boundary(window, k);
}

/// Whether a frame ends at an index depends on the bytes up to that index only.
pub proof fn lemma_boundary_of_prefix(window: Seq<u8>, n: int, k: int)
    requires
        0 <= k < n <= window.len(),
    ensures
        is_boundary(window.take(n), k) == is_boundary(window, k),
{
    assert(window.take(n).take(k) =~= window.take(k));
}

/// Stuffing never shortens: the stuffed bytes of a prefix are no longer than those of
/// the whole, and the whole is no shorter than the payload.
pub proof fn lemma_stuffed_len(payload: Seq<u8>, n: int)
    requires
        0 <= n <= payload.len(),
    ensures
        n <= stuffed(payload.take(n)).len() <= stuffed(payload).len(),
        stuffed(payload).len() <= 2 * payload.len(),
    decreases payload.len(),
{
    if n == payload.len() {
        assert(payload.take(n) =~= payload);
        if n > 0 {
            lemma_stuffed_len(payload.drop_last(), n - 1);
            assert(payload.drop_last().take(n - 1) =~= payload.drop_last());
        }
    } else {
        lemma_stuffed_len(payload.drop_last(), n);
        assert(payload.drop_last().take(n) =~= payload.take(n));
    }
}

/// A reader never keeps more bytes than it has walked.
pub proof fn lemma_unstuffed_len(bytes: Seq<u8>)
    ensures
        unstuffed(bytes).len() <= bytes.len(),
    decreases bytes.len(),
{
    if bytes.len() > 0 {
        lemma_unstuffed_len(bytes.drop_last());
    }
}

/// What a reader has kept after a part of the bytes is no longer than what it keeps
/// of the whole.
pub proof fn lemma_unstuffed_prefix(bytes: Seq<u8>, n: int)
    requires
        0 <= n <= bytes.len(),
    ensures
        unstuffed(bytes.take(n)).len() <= unstuffed(bytes).len(),
    decreases bytes.len(),
{
    if n == bytes.len() {
        assert(bytes.take(n) =~= bytes);
    } else {
        lemma_unstuffed_prefix(bytes.drop_last(), n);
        assert(bytes.drop_last().take(n) =~= bytes.take(n));
    }
}

/// Stuffs `payload` and closes the frame with a delimiter. Nothing is handed out of
/// a frame that would be longer than [`MAX_FRAME_SIZE`].
pub fn encode(payload: &[u8]) -> (frame: Result<ByteBuffer, LinkError>)
    ensures
        frame is Ok <==> frame_of(payload@).len() <= MAX_FRAME_SIZE,
        frame is Ok ==> contents(frame->Ok_0) == frame_of(payload@),
        frame is Err ==> frame->Err_0 == LinkError::FrameTooLarge,
{
    let mut frame = buffer_new();
    let mut i: usize = 0;
    proof {
        assert(payload@.take(0) =~= Seq::<u8>::empty());
    }
    while i < payload.len()
        invariant
            i <= payload@.len(),
            contents(frame) == stuffed(payload@.take(i as int)),
            contents(frame).len() < MAX_FRAME_SIZE,
        decreases payload@.len() - i,
    {
        let byte: u8 = payload[i];
        let needed: usize = if byte == DELIMITER {
            2
        } else {
            1
        };
        proof {
            let now = payload@.take(i + 1);
            assert(now.drop_last() =~= payload@.take(i as int));
            assert(now.last() == byte);
            lemma_stuffed_len(payload@, i + 1);
        }
        if buffer_len(&frame) + needed >= MAX_FRAME_SIZE {
            return Err(LinkError::FrameTooLarge);
        }
        if byte == DELIMITER {
            let _ = buffer_push(&mut frame, ESCAPE);
        }
        let _ = buffer_push(&mut frame, byte);
        i = i + 1;
    }
    proof {
        assert(payload@.take(payload@.len() as int) =~= payload@);
    }
    let _ = buffer_push(&mut frame, DELIMITER);
    Ok(frame)
}

/// Looks for the end of the first frame in `window`.
pub fn find_boundary(window: &[u8]) -> (found: Option<usize>)
    ensures
        found is Some <==> has_boundary(window@),
        found is Some ==> first_boundary(window@, found->Some_0 as int),
{
    let mut escaped: bool = false;
    let mut i: usize = 0;
    proof {
        assert(window@.take(0) =~= Seq::<u8>::empty());
    }
    while i < window.len()
        invariant
            i <= window@.len(),
            escaped == escape_pending(window@.take(i as int)),
            forall|j: int| 0 <= j < i ==> !is_boundary(window@, j),
        decreases window@.len() - i,
    {
        let byte: u8 = window[i];
        proof {
            let now = window@.take(i + 1);
            assert(now.drop_last() =~= window@.take(i as int));
            assert(now.last() == byte);
        }
        if escaped {
            escaped = false;
        } else if byte == ESCAPE {
            escaped = true;
        } else if byte == DELIMITER {
            proof {
                lemma_first_boundary_unique(window@, i as int);
            }
            return Some(i);
        }
        i = i + 1;
    }
    None
}

/// Decodes the front of `window`. `message` is what deserialising the payload of the
/// first frame of `window` gave, and is not looked at where `window` holds no
/// complete frame.
pub fn decode<'a>(window: &'a [u8], message: Option<Message>) -> (result: DecodeResult<'a>)
    ensures
        result@ == decode_spec(window@, message),
{
    if window.len() == 0 {
        return DecodeResult::Consumed;
    }
    match find_boundary(window) {
        None => DecodeResult::NeedMore(window),
        Some(k) => {
            let remaining = slice_subrange(window, k + 1, window.len());
            proof {
                assert(remaining@ =~= window@.skip(k + 1));
            }
            match message {
                Some(message) => DecodeResult::Decoded(message, remaining),
                None => DecodeResult::Rejected(remaining),
            }
        },
    }
}

/// Whether `payload` holds no escape byte. Only such a payload survives the trip
/// through a frame: an escape byte in a payload is put into the frame as it is, and
/// the reader acts on it.
pub open spec fn escape_free(payload: Seq<u8>) -> bool {
    forall|i: int| 0 <= i < payload.len() ==> payload[i] != ESCAPE
}

/// Whether `payload` holds no delimiter byte.
pub open spec fn delimiter_free(payload: Seq<u8>) -> bool {
    forall|i: int| 0 <= i < payload.len() ==> payload[i] != DELIMITER
}

/// Walking the stuffed bytes of a payload without escape bytes: the reader ends with
/// no escape pending, has kept the payload, and has met no end of frame.
proof fn lemma_stuffed_walk(payload: Seq<u8>)
    requires
        escape_free(payload),
    ensures
        !escape_pending(stuffed(payload)),
        unstuffed(stuffed(payload)) == payload,
        forall|j: int| 0 <= j < stuffed(payload).len() ==> !is_boundary(stuffed(payload), j),
    decreases payload.len(),
{
    if payload.len() == 0 {
        assert(unstuffed(stuffed(payload)) =~= payload);
    } else {
        let front = payload.drop_last();
        let last = payload.last();
        let inner = stuffed(front);
        let whole = stuffed(payload);
        let n = inner.len() as int;
        lemma_stuffed_walk(front);
        assert(last != ESCAPE);
        if last == DELIMITER {
            let mid = inner.push(ESCAPE);
            assert(whole == mid.push(DELIMITER));
            assert(mid.drop_last() =~= inner);
            assert(whole.drop_last() =~= mid);
            assert(escape_pending(mid));
            assert(unstuffed(mid) == front);
            assert(unstuffed(whole) =~= payload);
            assert forall|j: int| 0 <= j < whole.len() implies !is_boundary(whole, j) by {
                if j < n {
                    assert(whole.take(n) =~= inner);
                    lemma_boundary_of_prefix(whole, n, j);
                } else if j == n + 1 {
                    assert(whole.take(j) =~= mid);
                }
            }
        } else {
            assert(whole == inner.push(last));
            assert(whole.drop_last() =~= inner);
            assert(unstuffed(whole) =~= payload);
            assert forall|j: int| 0 <= j < whole.len() implies !is_boundary(whole, j) by {
                if j < n {
                    assert(whole.take(n) =~= inner);
                    lemma_boundary_of_prefix(whole, n, j);
                }
            }
        }
    }
}

/// A frame that is followed by anything decodes to its payload, and what followed is
/// left over. For every payload without escape bytes: taking the stuffing out of the
/// stuffed payload gives the payload; the first frame of `frame_of(payload) + rest`
/// ends at the closing delimiter and its payload is `payload`; decoding with the
/// message that the payload holds gives that message and `rest`, and decoding a
/// payload that holds no message rejects the frame and leaves `rest` as well.
pub proof fn lemma_frame_round_trip(payload: Seq<u8>, rest: Seq<u8>, message: Message)
    requires
        escape_free(payload),
    ensures
        unstuffed(stuffed(payload)) == payload,
        first_boundary(frame_of(payload) + rest, stuffed(payload).len() as int),
        frame_payload(frame_of(payload) + rest) == payload,
        decode_spec(frame_of(payload) + rest, Some(message)) == (Outcome::Decoded {
            message,
            remaining: rest,
        }),
        decode_spec(frame_of(payload) + rest, None) == (Outcome::Rejected { remaining: rest }),
{
    let inner = stuffed(payload);
    let window = frame_of(payload) + rest;
    let n = inner.len() as int;
    lemma_stuffed_walk(payload);
    assert(window.take(n) =~= inner);
    assert forall|j: int| 0 <= j < n implies !is_boundary(window, j) by {
        lemma_boundary_of_prefix(window, n, j);
    }
    assert(window[n] == DELIMITER);
    lemma_first_boundary_unique(window, n);
    assert(window.skip(n + 1) =~= rest);
}

/// The delimiter in a frame. The frame ends with the delimiter, and wherever else the
/// delimiter stands in it, an escape byte stands right before. A payload without
/// delimiter bytes is framed as it is, so that the delimiter stands in its frame once,
/// at the end.
pub proof fn lemma_delimiter_safety(payload: Seq<u8>)
    ensures
        frame_of(payload).last() == DELIMITER,
        forall|i: int|
            0 <= i < frame_of(payload).len() - 1 && #[trigger] frame_of(payload)[i] == DELIMITER
                ==> i > 0 && frame_of(payload)[i - 1] == ESCAPE,
        delimiter_free(payload) ==> frame_of(payload) == payload.push(DELIMITER),
{
    lemma_stuffed_delimiters(payload);
}

/// In the stuffed bytes of a payload an escape byte stands right before every
/// delimiter, and a payload without delimiter bytes is left as it is.
proof fn lemma_stuffed_delimiters(payload: Seq<u8>)
    ensures
        forall|i: int|
            0 <= i < stuffed(payload).len() && #[trigger] stuffed(payload)[i] == DELIMITER ==> i
                > 0 && stuffed(payload)[i - 1] == ESCAPE,
        delimiter_free(payload) ==> stuffed(payload) == payload,
    decreases payload.len(),
{
    if payload.len() > 0 {
        let inner = stuffed(payload.drop_last());
        let whole = stuffed(payload);
        lemma_stuffed_delimiters(payload.drop_last());
        assert forall|i: int|
            0 <= i < whole.len() && #[trigger] whole[i] == DELIMITER implies i > 0 && whole[i - 1]
            == ESCAPE by {
            if i < inner.len() {
                assert(whole[i] == inner[i]);
                assert(whole[i - 1] == inner[i - 1]);
            }
        }
        if delimiter_free(payload) {
            assert(delimiter_free(payload.drop_last()));
            assert(whole =~= payload);
        }
    } else {
        assert(stuffed(payload) =~= payload);
    }
}

/// Resynchronisation. Let `garbage` be bytes with no end of frame among them and no
/// escape pending after them. In the stream `garbage`, delimiter, `frame_of(payload)`,
/// `rest`, the first decoding takes off the garbage and its delimiter, whatever they
/// were taken for, and the second gives the message of `payload` and leaves `rest`.
pub proof fn lemma_resynchronisation(
    garbage: Seq<u8>,
    payload: Seq<u8>,
    rest: Seq<u8>,
    misread: Option<Message>,
    message: Message,
)
    requires
        !escape_pending(garbage),
        forall|j: int| 0 <= j < garbage.len() ==> !is_boundary(garbage, j),
        escape_free(payload),
    ensures
        remaining_of(
            decode_spec(garbage.push(DELIMITER) + frame_of(payload) + rest, misread),
        ) == frame_of(payload) + rest,
        !(decode_spec(garbage.push(DELIMITER) + frame_of(payload) + rest, misread)
            is NeedMore),
        decode_spec(frame_of(payload) + rest, Some(message)) == (Outcome::Decoded {
            message,
            remaining: rest,
        }),
{
    let stream = garbage.push(DELIMITER) + frame_of(payload) + rest;
    let n = garbage.len() as int;
    assert(stream.take(n) =~= garbage);
    assert forall|j: int| 0 <= j < n implies !is_boundary(stream, j) by {
        lemma_boundary_of_prefix(stream, n, j);
    }
    assert(stream[n] == DELIMITER);
    lemma_first_boundary_unique(stream, n);
    assert(stream.skip(n + 1) =~= frame_of(payload) + rest);
    lemma_frame_round_trip(payload, rest, message);
}

} // verus!
