//! Numbers and the byte strings that spell them, in either byte order.

use vstd::prelude::*;

verus! {

/// `256` to the power `n`: the number of values that `n` bytes can take.
pub open spec fn radix(n: nat) -> nat
    decreases n,
{
    if n == 0 {
        1
    } else {
        256 * radix((n - 1) as nat)
    }
}

/// The number that `bytes` spell with the least significant byte first.
pub open spec fn le_value(bytes: Seq<u8>) -> nat
    decreases bytes.len(),
{
    if bytes.len() == 0 {
        0
    } else {
        bytes[0] as nat + 256 * le_value(bytes.skip(1))
    }
}

/// The `len` low-order bytes of `v`, least significant byte first.
pub open spec fn le_bytes(v: nat, len: nat) -> Seq<u8>
    decreases len,
{
    if len == 0 {
        Seq::empty()
    } else {
        seq![(v % 256) as u8] + le_bytes(v / 256, (len - 1) as nat)
    }
}

/// The number that `bytes` spell with the most significant byte first.
pub open spec fn be_value(bytes: Seq<u8>) -> nat
    decreases bytes.len(),
{
    if bytes.len() == 0 {
        0
    } else {
        256 * be_value(bytes.drop_last()) + bytes.last() as nat
    }
}

/// The `len` low-order bytes of `v`, most significant byte first.
pub open spec fn be_bytes(v: nat, len: nat) -> Seq<u8>
    decreases len,
{
    if len == 0 {
        Seq::empty()
    } else {
        be_bytes(v / 256, (len - 1) as nat).push((v % 256) as u8)
    }
}

/// The values of `radix` up to a machine word.
pub proof fn lemma_radix_values()
    ensures
        radix(0) == 1,
        radix(1) == 0x100,
        radix(2) == 0x1_0000,
        radix(3) == 0x100_0000,
        radix(4) == 0x1_0000_0000,
        radix(5) == 0x100_0000_0000,
        radix(6) == 0x1_0000_0000_0000,
        radix(7) == 0x100_0000_0000_0000,
        radix(8) == 0x1_0000_0000_0000_0000,
{
    reveal_with_fuel(radix, 10);
}

/// `le_bytes` has the length asked for.
pub proof fn lemma_le_bytes_len(v: nat, len: nat)
    ensures
        le_bytes(v, len).len() == len,
    decreases len,
{
    if len > 0 {
        lemma_le_bytes_len(v / 256, (len - 1) as nat);
    }
}

/// `be_bytes` has the length asked for.
pub proof fn lemma_be_bytes_len(v: nat, len: nat)
    ensures
        be_bytes(v, len).len() == len,
    decreases len,
{
    if len > 0 {
        lemma_be_bytes_len(v / 256, (len - 1) as nat);
    }
}

/// A little-endian byte string of `n` bytes spells a number below `radix(n)`.
pub proof fn lemma_le_value_bound(bytes: Seq<u8>)
    ensures
        le_value(bytes) < radix(bytes.len()),
    decreases bytes.len(),
{
    if bytes.len() > 0 {
        lemma_le_value_bound(bytes.skip(1));
    }
}

/// A big-endian byte string of `n` bytes spells a number below `radix(n)`.
pub proof fn lemma_be_value_bound(bytes: Seq<u8>)
    ensures
        be_value(bytes) < radix(bytes.len()),
    decreases bytes.len(),
{
    if bytes.len() > 0 {
        lemma_be_value_bound(bytes.drop_last());
    }
}

/// Reading back the little-endian bytes of a number that fits gives the number.
pub proof fn lemma_le_value_of_bytes(v: nat, len: nat)
    requires
        v < radix(len),
    ensures
        le_value(le_bytes(v, len)) == v,
    decreases len,
{
    if len > 0 {
        let rest = le_bytes(v / 256, (len - 1) as nat);
        lemma_le_value_of_bytes(v / 256, (len - 1) as nat);
        assert(le_bytes(v, len).skip(1) =~= rest);
    }
}

/// Writing out the number that a little-endian byte string spells gives the string.
pub proof fn lemma_le_bytes_of_value(bytes: Seq<u8>)
    ensures
        le_bytes(le_value(bytes), bytes.len()) == bytes,
    decreases bytes.len(),
{
    if bytes.len() > 0 {
        let tail = bytes.skip(1);
        lemma_le_bytes_of_value(tail);
        let v = le_value(bytes);
        assert(v % 256 == bytes[0] as nat);
        assert(v / 256 == le_value(tail));
        assert(le_bytes(v, bytes.len()) =~= bytes);
    } else {
        assert(le_bytes(le_value(bytes), 0) =~= bytes);
    }
}

/// Reading back the big-endian bytes of a number that fits gives the number.
pub proof fn lemma_be_value_of_bytes(v: nat, len: nat)
    requires
        v < radix(len),
    ensures
        be_value(be_bytes(v, len)) == v,
    decreases len,
{
    if len > 0 {
        let front = be_bytes(v / 256, (len - 1) as nat);
        lemma_be_value_of_bytes(v / 256, (len - 1) as nat);
        assert(be_bytes(v, len).drop_last() =~= front);
    }
}

/// Writing out the number that a big-endian byte string spells gives the string.
pub proof fn lemma_be_bytes_of_value(bytes: Seq<u8>)
    ensures
        be_bytes(be_value(bytes), bytes.len()) == bytes,
    decreases bytes.len(),
{
    if bytes.len() > 0 {
        let front = bytes.drop_last();
        lemma_be_bytes_of_value(front);
        let v = be_value(bytes);
        assert(v % 256 == bytes.last() as nat);
        assert(v / 256 == be_value(front));
        assert(be_bytes(v, bytes.len()) =~= bytes);
    } else {
        assert(be_bytes(be_value(bytes), 0) =~= bytes);
    }
}

/// `radix` grows with the number of bytes.
pub proof fn lemma_radix_monotonic(a: nat, b: nat)
    requires
        a <= b,
    ensures
        radix(a) <= radix(b),
        radix(a) > 0,
    decreases b,
{
    if a < b {
        lemma_radix_monotonic(a, (b - 1) as nat);
    } else if a > 0 {
        lemma_radix_monotonic((a - 1) as nat, (a - 1) as nat);
    }
}

/// The eight bytes of `v`, least significant byte first.
pub(crate) fn word_to_le(v: u64) -> (bytes: [u8; 8])
    ensures
        bytes@ == le_bytes(v as nat, 8),
{
    let mut bytes: [u8; 8] = [0u8; 8];
    let mut rest: u64 = v;
    let mut i: usize = 0;
    proof {
        assert(bytes@.take(0) + le_bytes(rest as nat, 8) =~= le_bytes(rest as nat, 8));
    }
    while i < 8
        invariant
            i <= 8,
            le_bytes(v as nat, 8) == bytes@.take(i as int) + le_bytes(rest as nat, (8 - i) as nat),
        decreases 8 - i,
    {
        let low: u8 = (rest & 0xff) as u8;
        let ghost before = bytes@;
        proof {
            assert(rest & 0xff == rest % 256) by (bit_vector);
            assert(rest >> 8 == rest / 256) by (bit_vector);
        }
        bytes[i] = low;
        proof {
            let done = before.take(i as int);
            assert(bytes@.take(i + 1) =~= done.push(low));
            assert(done.push(low) + le_bytes((rest / 256) as nat, (8 - i - 1) as nat) =~= done
                + le_bytes(rest as nat, (8 - i) as nat));
        }
        rest = rest >> 8;
        i = i + 1;
    }
    proof {
        assert(bytes@.take(8) + le_bytes(rest as nat, 0) =~= bytes@);
    }
    bytes
}

/// The word that the eight bytes of `bytes` from `offset` on spell, least significant
/// byte first.
pub(crate) fn word_from_le(bytes: &[u8], offset: usize) -> (v: u64)
    requires
        offset + 8 <= bytes.len(),
    ensures
        v == le_value(bytes@.subrange(offset as int, offset + 8)),
{
    let mut v: u64 = 0;
    let mut i: usize = 8;
    let ghost word = bytes@.subrange(offset as int, offset + 8);
    proof {
        assert(word.subrange(8, 8) =~= Seq::<u8>::empty());
    }
    while i > 0
        invariant
            i <= 8,
            offset + 8 <= bytes.len(),
            word == bytes@.subrange(offset as int, offset + 8),
            v == le_value(word.subrange(i as int, 8)),
        decreases i,
    {
        i = i - 1;
        let byte: u8 = bytes[offset + i];
        proof {
            let tail = word.subrange(i + 1, 8);
            let now = word.subrange(i as int, 8);
            lemma_le_value_bound(tail);
            lemma_radix_values();
            lemma_radix_monotonic(tail.len(), 7);
            assert(now.skip(1) =~= tail);
            assert(now[0] == byte);
            let w: u64 = v;
            assert(w < 0x100_0000_0000_0000 ==> ((w << 8) | (byte as u64)) == w * 256 + (
            byte as u64)) by (bit_vector);
        }
        v = (v << 8) | (byte as u64);
    }
    proof {
        assert(word.subrange(0, 8) =~= word);
    }
    v
}

} // verus!
