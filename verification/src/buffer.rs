//! The bounded byte buffer that the link works in.
//!
//! The buffer is `heapless::Vec<u8, 256>`: it lives on the stack and never allocates.
//! Verified code cannot see inside it, so this module names what it holds and states,
//! for each method that the library calls, what that method does to the contents.
//! These statements are taken from the source of `heapless` and are not proved here.

use vstd::prelude::*;

verus! {

/// `heapless::Vec`, known to the verifier as an opaque type.
#[verifier::external_type_specification]
#[verifier::external_body]
#[verifier::reject_recursive_types(T)]
pub struct ExHeaplessVec<T, const N: usize>(heapless::Vec<T, N>);

/// A byte buffer with room for [`BUFFER_CAPACITY`] bytes.
pub type ByteBuffer = heapless::Vec<u8, 256>;

/// The number of bytes that a [`ByteBuffer`] has room for.
pub const BUFFER_CAPACITY: usize = 256;

/// The bytes that `buffer` holds, the first one pushed first.
pub uninterp spec fn contents(buffer: ByteBuffer) -> Seq<u8>;

/// `heapless::Vec::new`: a buffer that holds nothing.
#[verifier::external_body]
pub(crate) fn buffer_new() -> (buffer: ByteBuffer)
    ensures
        contents(buffer) == Seq::<u8>::empty(),
{
    heapless::Vec::new()
}

/// `heapless::Vec::push`: while there is room the byte is appended and `Ok` comes back;
/// on a full buffer nothing changes and the byte comes back in `Err`.
#[verifier::external_body]
pub(crate) fn buffer_push(buffer: &mut ByteBuffer, byte: u8) -> (pushed: Result<(), u8>)
    ensures
        contents(*old(buffer)).len() < BUFFER_CAPACITY ==> pushed is Ok && contents(*final(buffer))
            == contents(*old(buffer)).push(byte),
        contents(*old(buffer)).len() >= BUFFER_CAPACITY ==> pushed is Err && pushed->Err_0 == byte
            && contents(*final(buffer)) == contents(*old(buffer)),
{
    buffer.push(byte)
}

/// `heapless::Vec::extend_from_slice`: where all of `bytes` fits it is appended in order
/// and `Ok` comes back; where it does not fit nothing changes and `Err` comes back.
#[verifier::external_body]
pub(crate) fn buffer_extend(buffer: &mut ByteBuffer, bytes: &[u8]) -> (extended: Result<(), ()>)
    ensures
        contents(*old(buffer)).len() + bytes@.len() <= BUFFER_CAPACITY ==> extended is Ok
            && contents(*final(buffer)) == contents(*old(buffer)) + bytes@,
        contents(*old(buffer)).len() + bytes@.len() > BUFFER_CAPACITY ==> extended is Err
            && contents(*final(buffer)) == contents(*old(buffer)),
{
    buffer.extend_from_slice(bytes)
}

/// `heapless::Vec::clear`: the buffer holds nothing afterwards.
#[verifier::external_body]
pub(crate) fn buffer_clear(buffer: &mut ByteBuffer)
    ensures
        contents(*final(buffer)) == Seq::<u8>::empty(),
{
    buffer.clear()
}

/// `heapless::Vec::as_slice`: the bytes held, as a slice. A buffer never holds more
/// than its capacity.
#[verifier::external_body]
pub(crate) fn buffer_as_slice(buffer: &ByteBuffer) -> (bytes: &[u8])
    ensures
        bytes@ == contents(*buffer),
        bytes@.len() <= BUFFER_CAPACITY,
{
    buffer.as_slice()
}

/// The number of bytes that `buffer` holds.
pub(crate) fn buffer_len(buffer: &ByteBuffer) -> (len: usize)
    ensures
        len == contents(*buffer).len(),
        len <= BUFFER_CAPACITY,
{
    buffer_as_slice(buffer).len()
}

} // verus!
