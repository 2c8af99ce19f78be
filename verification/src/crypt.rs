//! Toy asymmetric and symmetric primitives of the link.
//!
//! None of this is cryptographically sound: the moduli are a machine word wide and the
//! block cipher is a keyed exclusive-or. What the module fixes is the exact function
//! that each primitive computes, so that the protocol built on them can be reasoned about.

use vstd::arithmetic::div_mod::{lemma_mul_mod_noop_general, lemma_small_mod};
use vstd::arithmetic::mul::{lemma_mul_basics, lemma_mul_is_associative};
use vstd::arithmetic::power::{
    lemma_pow0, lemma_pow1, lemma_pow_adds, lemma_pow_mod_noop, lemma_pow_multiplies,
    lemma_square_is_pow2, pow,
};
use crate::buffer::{buffer_extend, buffer_new, contents, ByteBuffer, BUFFER_CAPACITY};
use crate::bytes::{
    be_bytes, be_value, le_bytes, le_value, lemma_be_value_bound, lemma_le_bytes_len,
    lemma_le_bytes_of_value, lemma_le_value_bound, lemma_le_value_of_bytes,
    lemma_radix_monotonic, lemma_radix_values, word_from_le, word_to_le,
};
use vstd::prelude::*;

verus! {

/// An RSA public key: modulus `n` and public exponent `e`.
#[derive(Clone, Copy, Debug, PartialEq, Eq, Structural)]
pub struct RSAPublicKey {
    pub n: u64,
    pub e: u64,
}

/// An RSA private key: modulus `n` and private exponent `d`.
#[derive(Clone, Copy, Debug, PartialEq, Eq, Structural)]
pub struct RSAPrivateKey {
    pub n: u64,
    pub d: u64,
}

/// The sixteen bytes that hold two words, each least significant byte first.
pub open spec fn pair_bytes(first: u64, second: u64) -> Seq<u8> {
    le_bytes(first as nat, 8) + le_bytes(second as nat, 8)
}

impl RSAPublicKey {
    /// The public key of the modulus `n` and the exponent `e`.
    pub fn new(n: u64, e: u64) -> (key: RSAPublicKey)
        ensures
            key.n == n,
            key.e == e,
    {
        RSAPublicKey { n, e }
    }

    /// The key as it lies in a key slot: `n`, then `e`, each least significant byte first.
    pub fn to_bytes(&self) -> (bytes: [u8; 16])
        ensures
            bytes@ == pair_bytes(self.n, self.e),
    {
        let low = word_to_le(self.n);
        let high = word_to_le(self.e);
        let mut bytes: [u8; 16] = [0u8; 16];
        let mut i: usize = 0;
        while i < 8
            invariant
                i <= 8,
                forall|j: int| 0 <= j < i ==> bytes@[j] == low@[j] && bytes@[j + 8] == high@[j],
            decreases 8 - i,
        {
            bytes[i] = low[i];
            bytes[i + 8] = high[i];
            i = i + 1;
        }
        proof {
            assert(bytes@ =~= low@ + high@);
        }
        bytes
    }

    /// The key that lies in a key slot.
    pub fn from_bytes(bytes: &[u8; 16]) -> (key: RSAPublicKey)
        ensures
            key.n == le_value(bytes@.subrange(0, 8)),
            key.e == le_value(bytes@.subrange(8, 16)),
    {
        let n = word_from_le(bytes, 0);
        let e = word_from_le(bytes, 8);
        RSAPublicKey { n, e }
    }
}

impl RSAPrivateKey {
    /// The private key of the modulus `n` and the exponent `d`.
    pub fn new(n: u64, d: u64) -> (key: RSAPrivateKey)
        ensures
            key.n == n,
            key.d == d,
    {
        RSAPrivateKey { n, d }
    }

    /// The key as it lies in a key slot: `n`, then `d`, each least significant byte first.
    pub fn to_bytes(&self) -> (bytes: [u8; 16])
        ensures
            bytes@ == pair_bytes(self.n, self.d),
    {
        let low = word_to_le(self.n);
        let high = word_to_le(self.d);
        let mut bytes: [u8; 16] = [0u8; 16];
        let mut i: usize = 0;
        while i < 8
            invariant
                i <= 8,
                forall|j: int| 0 <= j < i ==> bytes@[j] == low@[j] && bytes@[j + 8] == high@[j],
            decreases 8 - i,
        {
            bytes[i] = low[i];
            bytes[i + 8] = high[i];
            i = i + 1;
        }
        proof {
            assert(bytes@ =~= low@ + high@);
        }
        bytes
    }

    /// The key that lies in a key slot.
    pub fn from_bytes(bytes: &[u8; 16]) -> (key: RSAPrivateKey)
        ensures
            key.n == le_value(bytes@.subrange(0, 8)),
            key.d == le_value(bytes@.subrange(8, 16)),
    {
        let n = word_from_le(bytes, 0);
        let d = word_from_le(bytes, 8);
        RSAPrivateKey { n, d }
    }
}

/// `base` to the power `exp`, reduced modulo `modulus`.
pub open spec fn mod_exp_spec(base: nat, exp: nat, modulus: nat) -> nat {
    (pow(base as int, exp) % (modulus as int)) as nat
}

/// Halving an exponent squares the base.
proof fn lemma_pow_halves(b: int, k: nat)
    ensures
        pow(b, 2 * k) == pow(b * b, k),
        pow(b, 2 * k + 1) == b * pow(b * b, k),
{
    lemma_square_is_pow2(b);
    lemma_pow_multiplies(b, 2, k);
    lemma_pow_adds(b, 1, 2 * k);
    lemma_pow1(b);
}

/// Reducing both factors first does not change a product of a number and a power
/// modulo `m`.
proof fn lemma_reduce_factors(r: int, s: int, k: nat, m: int)
    requires
        m > 0,
    ensures
        ((r % m) * pow(s % m, k)) % m == (r * pow(s, k)) % m,
{
    lemma_mul_mod_noop_general(r, pow(s % m, k), m);
    lemma_pow_mod_noop(s, k, m);
    lemma_mul_mod_noop_general(r, pow(s, k), m);
}

/// Modular exponentiation by repeated squaring. The products are formed in 128 bits,
/// so every modulus but zero is served.
pub fn mod_exp(base: u64, exp: u64, modulus: u64) -> (result: u64)
    requires
        modulus != 0,
    ensures
        result == mod_exp_spec(base as nat, exp as nat, modulus as nat),
{
    if modulus == 1 {
        return 0;
    }
    let m: u128 = modulus as u128;
    let mut result: u128 = 1;
    let mut b: u128 = (base % modulus) as u128;
    let mut e: u64 = exp;
    proof {
        lemma_pow_mod_noop(base as int, exp as nat, m as int);
        lemma_mul_basics(pow(b as int, exp as nat));
    }
    while e > 0
        invariant
            m == modulus,
            m > 1,
            result < m,
            b < m,
            (result * pow(b as int, e as nat)) % (m as int) == pow(base as int, exp as nat) % (
            m as int),
        decreases e,
    {
        let ghost k: nat = (e / 2) as nat;
        let ghost r0: int = result as int;
        let ghost b0: int = b as int;
        proof {
            lemma_pow_halves(b0, k);
            assert(r0 * b0 <= 0xffff_ffff_ffff_ffff * 0xffff_ffff_ffff_ffff) by (nonlinear_arith)
                requires
                    0 <= r0 <= 0xffff_ffff_ffff_ffff,
                    0 <= b0 <= 0xffff_ffff_ffff_ffff,
            ;
            assert(b0 * b0 <= 0xffff_ffff_ffff_ffff * 0xffff_ffff_ffff_ffff) by (nonlinear_arith)
                requires
                    0 <= b0 <= 0xffff_ffff_ffff_ffff,
            ;
        }
        if e % 2 == 1 {
            proof {
                assert(e == 2 * k + 1);
                lemma_reduce_factors(r0 * b0, b0 * b0, k, m as int);
                assert(r0 * (b0 * pow(b0 * b0, k)) == (r0 * b0) * pow(b0 * b0, k)) by {
                    lemma_mul_is_associative(r0, b0, pow(b0 * b0, k));
                }
            }
            result = (result * b) % m;
        } else {
            proof {
                assert(e == 2 * k);
                lemma_reduce_factors(r0, b0 * b0, k, m as int);
                lemma_small_mod(r0 as nat, m as nat);
            }
        }
        e = e / 2;
        b = (b * b) % m;
    }
    proof {
        lemma_pow0(b as int);
        lemma_small_mod(result as nat, m as nat);
    }
    result as u64
}

/// Reads at most eight bytes as a number, most significant byte first.
pub fn bytes_to_u64(bytes: &[u8]) -> (value: u64)
    requires
        bytes@.len() <= 8,
    ensures
        value == be_value(bytes@),
{
    let mut value: u64 = 0;
    let mut i: usize = 0;
    proof {
        assert(bytes@.take(0) =~= Seq::<u8>::empty());
    }
    while i < bytes.len()
        invariant
            i <= bytes@.len() <= 8,
            value == be_value(bytes@.take(i as int)),
        decreases bytes@.len() - i,
    {
        let byte: u8 = bytes[i];
        proof {
            let front = bytes@.take(i as int);
            let now = bytes@.take(i + 1);
            lemma_be_value_bound(front);
            lemma_radix_values();
            lemma_radix_monotonic(front.len(), 7);
            assert(now.drop_last() =~= front);
            assert(now.last() == byte);
            let w: u64 = value;
            assert(w < 0x100_0000_0000_0000 ==> ((w << 8) | (byte as u64)) == w * 256 + (
            byte as u64)) by (bit_vector);
        }
        value = (value << 8) | (byte as u64);
        i = i + 1;
    }
    proof {
        assert(bytes@.take(bytes@.len() as int) =~= bytes@);
    }
    value
}

/// Writes a number as eight bytes, most significant byte first.
pub fn u64_to_bytes(value: u64) -> (bytes: [u8; 8])
    ensures
        bytes@ == be_bytes(value as nat, 8),
{
    let mut bytes: [u8; 8] = [0u8; 8];
    let mut rest: u64 = value;
    let mut i: usize = 8;
    proof {
        assert(bytes@.subrange(8, 8) =~= Seq::<u8>::empty());
        assert(be_bytes(rest as nat, 8) + Seq::<u8>::empty() =~= be_bytes(rest as nat, 8));
    }
    while i > 0
        invariant
            i <= 8,
            be_bytes(value as nat, 8) == be_bytes(rest as nat, i as nat) + bytes@.subrange(
                i as int,
                8,
            ),
        decreases i,
    {
        let low: u8 = (rest & 0xff) as u8;
        let ghost before = bytes@;
        proof {
            assert(rest & 0xff == rest % 256) by (bit_vector);
            assert(rest >> 8 == rest / 256) by (bit_vector);
        }
        i = i - 1;
        bytes[i] = low;
        proof {
            let done = before.subrange(i + 1, 8);
            let now = bytes@.subrange(i as int, 8);
            assert(now =~= seq![low] + done);
            assert(be_bytes((rest / 256) as nat, i as nat) + now =~= be_bytes(
                rest as nat,
                (i + 1) as nat,
            ) + done);
        }
        rest = rest >> 8;
    }
    proof {
        assert(be_bytes(rest as nat, 0) =~= Seq::<u8>::empty());
        assert(Seq::<u8>::empty() + bytes@.subrange(0, 8) =~= bytes@);
    }
    bytes
}

/// What `encrypt` and `decrypt` compute: the bytes are read as a big-endian number,
/// raised to `exponent` modulo `modulus`, and written back as eight big-endian bytes.
pub open spec fn rsa_transform(bytes: Seq<u8>, exponent: u64, modulus: u64) -> Seq<u8> {
    be_bytes(mod_exp_spec(be_value(bytes), exponent as nat, modulus as nat), 8)
}

/// Encrypts at most eight bytes under a public key.
pub fn encrypt(pub_key: &RSAPublicKey, m: &[u8]) -> (c: [u8; 8])
    requires
        m@.len() <= 8,
        pub_key.n != 0,
    ensures
        c@ == rsa_transform(m@, pub_key.e, pub_key.n),
{
    proof {
        lemma_be_value_bound(m@);
        lemma_radix_values();
        lemma_radix_monotonic(m@.len(), 8);
    }
    let m_int = bytes_to_u64(m);
    let encrypted_int = mod_exp(m_int, pub_key.e, pub_key.n);
    u64_to_bytes(encrypted_int)
}

/// Decrypts at most eight bytes under a private key.
pub fn decrypt(priv_key: &RSAPrivateKey, c: &[u8]) -> (m: [u8; 8])
    requires
        c@.len() <= 8,
        priv_key.n != 0,
    ensures
        m@ == rsa_transform(c@, priv_key.d, priv_key.n),
{
    proof {
        lemma_be_value_bound(c@);
        lemma_radix_values();
        lemma_radix_monotonic(c@.len(), 8);
    }
    let c_int = bytes_to_u64(c);
    let decrypted_int = mod_exp(c_int, priv_key.d, priv_key.n);
    u64_to_bytes(decrypted_int)
}

/// The width of a cipher block in bytes.
pub const AES_BLOCK_SIZE: usize = 8;

/// Byte by byte exclusive-or of `a` with `b`, as long as `a`.
pub open spec fn xor_bytes(a: Seq<u8>, b: Seq<u8>) -> Seq<u8> {
    Seq::new(a.len(), |i: int| a[i] ^ b[i])
}

/// The number of blocks that `len` bytes fill, the last one perhaps only in part.
pub open spec fn block_count(len: nat) -> nat {
    (len + 7) / 8
}

/// Block `i` of `data`; past the end of `data` it is filled up with zeros.
pub open spec fn padded_block(data: Seq<u8>, i: nat) -> Seq<u8> {
    Seq::new(
        8,
        |j: int|
            if 8 * i + j < data.len() {
                data[8 * i + j]
            } else {
                0u8
            },
    )
}

/// `data` filled up with zeros to a whole number of blocks.
pub open spec fn zero_padded(data: Seq<u8>) -> Seq<u8> {
    Seq::new(
        8 * block_count(data.len()),
        |j: int|
            if j < data.len() {
                data[j]
            } else {
                0u8
            },
    )
}

/// Cipher block `i` of `data` under `key`: the plain block, combined with the cipher
/// block before it and then with the key.
pub open spec fn cipher_block(key: Seq<u8>, data: Seq<u8>, i: nat) -> Seq<u8>
    decreases i,
{
    let chain = if i == 0 {
        Seq::new(8, |j: int| 0u8)
    } else {
        cipher_block(key, data, (i - 1) as nat)
    };
    xor_bytes(xor_bytes(padded_block(data, i), chain), key)
}

/// The cipher text of `data` under `key`: its cipher blocks one after the other.
pub open spec fn aes_encrypt_spec(key: Seq<u8>, data: Seq<u8>) -> Seq<u8> {
    Seq::new(8 * block_count(data.len()), |j: int| cipher_block(key, data, (j / 8) as nat)[j % 8])
}

/// Plain block `i` of the cipher text `data` under `key`: the cipher block, combined
/// with the key and then with the cipher block before it.
pub open spec fn plain_block(key: Seq<u8>, data: Seq<u8>, i: nat) -> Seq<u8> {
    let chain = if i == 0 {
        Seq::new(8, |j: int| 0u8)
    } else {
        padded_block(data, (i - 1) as nat)
    };
    xor_bytes(xor_bytes(padded_block(data, i), key), chain)
}

/// The plain text of the cipher text `data` under `key`: its plain blocks one after
/// the other.
pub open spec fn aes_decrypt_spec(key: Seq<u8>, data: Seq<u8>) -> Seq<u8> {
    Seq::new(8 * block_count(data.len()), |j: int| plain_block(key, data, (j / 8) as nat)[j % 8])
}

/// Combines `block` with `key` in place.
pub fn aes_encrypt_block(key: &[u8; 8], block: &mut [u8; 8])
    ensures
        final(block)@ == xor_bytes(old(block)@, key@),
{
    let mut i: usize = 0;
    while i < AES_BLOCK_SIZE
        invariant
            i <= 8,
            forall|j: int| 0 <= j < i ==> block@[j] == old(block)@[j] ^ key@[j],
            forall|j: int| i <= j < 8 ==> block@[j] == old(block)@[j],
        decreases 8 - i,
    {
        block[i] = block[i] ^ key[i];
        i = i + 1;
    }
    proof {
        assert(block@ =~= xor_bytes(old(block)@, key@));
    }
}

/// Combines `block` with `key` in place; the cipher is its own inverse.
pub fn aes_decrypt_block(key: &[u8; 8], block: &mut [u8; 8])
    ensures
        final(block)@ == xor_bytes(old(block)@, key@),
{
    aes_encrypt_block(key, block)
}

/// Copies block `i` of `data` out, filled up with zeros past the end of `data`.
fn load_block(data: &[u8], i: usize) -> (block: [u8; 8])
    requires
        8 * i + 8 <= usize::MAX,
    ensures
        block@ == padded_block(data@, i as nat),
{
    let mut block: [u8; 8] = [0u8; 8];
    let mut j: usize = 0;
    while j < AES_BLOCK_SIZE
        invariant
            j <= 8,
            8 * i + 8 <= usize::MAX,
            forall|k: int| 0 <= k < j ==> block@[k] == padded_block(data@, i as nat)[k],
            forall|k: int| j <= k < 8 ==> block@[k] == 0u8,
        decreases 8 - j,
    {
        if 8 * i + j < data.len() {
            block[j] = data[8 * i + j];
        }
        j = j + 1;
    }
    proof {
        assert(block@ =~= padded_block(data@, i as nat));
    }
    block
}

/// Enciphers `data` block by block; each block is chained with the cipher block before
/// it, the first with zeros, and a last block that `data` fills only in part is filled
/// up with zeros.
pub fn aes_encrypt(key: &[u8; 8], data: &[u8]) -> (encrypted: ByteBuffer)
    requires
        data@.len() <= BUFFER_CAPACITY,
    ensures
        contents(encrypted) == aes_encrypt_spec(key@, data@),
{
    let mut encrypted = buffer_new();
    let mut iv: [u8; 8] = [0u8; 8];
    let blocks: usize = (data.len() + 7) / 8;
    let mut i: usize = 0;
    proof {
        assert(iv@ =~= Seq::new(8, |j: int| 0u8));
    }
    while i < blocks
        invariant
            i <= blocks,
            blocks == block_count(data@.len()),
            blocks <= 32,
            contents(encrypted).len() == 8 * i,
            forall|j: int|
                0 <= j < 8 * i ==> contents(encrypted)[j] == #[trigger] aes_encrypt_spec(
                    key@,
                    data@,
                )[j],
            i == 0 ==> iv@ == Seq::new(8, |j: int| 0u8),
            i > 0 ==> iv@ == cipher_block(key@, data@, (i - 1) as nat),
        decreases blocks - i,
    {
        let mut block = load_block(data, i);
        aes_encrypt_block(&iv, &mut block);
        aes_encrypt_block(key, &mut block);
        assert(block@ == cipher_block(key@, data@, i as nat));
        iv = block;
        let ghost before = contents(encrypted);
        let extended = buffer_extend(&mut encrypted, &block);
        proof {
            assert(extended is Ok);
            assert forall|j: int| 0 <= j < 8 * (i + 1) implies contents(encrypted)[j]
                == #[trigger] aes_encrypt_spec(key@, data@)[j] by {
                if j >= 8 * i {
                    assert(j / 8 == i);
                    assert(contents(encrypted)[j] == block@[j - 8 * i]);
                    assert(j % 8 == j - 8 * i);
                }
            }
        }
        i = i + 1;
    }
    proof {
        assert(contents(encrypted) =~= aes_encrypt_spec(key@, data@));
    }
    encrypted
}

/// Deciphers `encrypted_data` block by block. The cipher text is a whole number of
/// blocks.
pub fn aes_decrypt(key: &[u8; 8], encrypted_data: &[u8]) -> (decrypted: ByteBuffer)
    requires
        encrypted_data@.len() <= BUFFER_CAPACITY,
        encrypted_data@.len() % 8 == 0,
    ensures
        contents(decrypted) == aes_decrypt_spec(key@, encrypted_data@),
{
    let mut decrypted = buffer_new();
    let mut iv: [u8; 8] = [0u8; 8];
    let blocks: usize = encrypted_data.len() / 8;
    let mut i: usize = 0;
    proof {
        assert(iv@ =~= Seq::new(8, |j: int| 0u8));
    }
    while i < blocks
        invariant
            i <= blocks,
            blocks == block_count(encrypted_data@.len()),
            blocks <= 32,
            contents(decrypted).len() == 8 * i,
            forall|j: int|
                0 <= j < 8 * i ==> contents(decrypted)[j] == #[trigger] aes_decrypt_spec(
                    key@,
                    encrypted_data@,
                )[j],
            i == 0 ==> iv@ == Seq::new(8, |j: int| 0u8),
            i > 0 ==> iv@ == padded_block(encrypted_data@, (i - 1) as nat),
        decreases blocks - i,
    {
        let block = load_block(encrypted_data, i);
        let mut decrypted_block = block;
        aes_decrypt_block(key, &mut decrypted_block);
        aes_decrypt_block(&iv, &mut decrypted_block);
        assert(decrypted_block@ == plain_block(key@, encrypted_data@, i as nat));
        iv = block;
        let extended = buffer_extend(&mut decrypted, &decrypted_block);
        proof {
            assert(extended is Ok);
            assert forall|j: int| 0 <= j < 8 * (i + 1) implies contents(decrypted)[j]
                == #[trigger] aes_decrypt_spec(key@, encrypted_data@)[j] by {
                if j >= 8 * i {
                    assert(j / 8 == i);
                    assert(contents(decrypted)[j] == decrypted_block@[j - 8 * i]);
                    assert(j % 8 == j - 8 * i);
                }
            }
        }
        i = i + 1;
    }
    proof {
        assert(contents(decrypted) =~= aes_decrypt_spec(key@, encrypted_data@));
    }
    decrypted
}

/// The start value of the FNV-1a hash of 64 bits.
pub const FNV_OFFSET_BASIS: u64 = 0xcbf29ce484222325;

/// The multiplier of the FNV-1a hash of 64 bits.
pub const FNV_PRIME: u64 = 0x100000001b3;

/// The FNV-1a hash of `data`: from the start value, each byte in turn is combined into
/// the low byte of the hash, and the hash is then multiplied by the prime modulo 2^64.
pub open spec fn fnv1a(data: Seq<u8>) -> u64
    decreases data.len(),
{
    if data.len() == 0 {
        FNV_OFFSET_BASIS
    } else {
        let mixed = fnv1a(data.drop_last()) ^ (data.last() as u64);
        ((mixed as nat * FNV_PRIME as nat) % 0x1_0000_0000_0000_0000) as u64
    }
}

/// The FNV-1a hash of `data`, least significant byte first.
pub fn fnv1a_hash(data: &[u8]) -> (key: [u8; 8])
    ensures
        key@ == le_bytes(fnv1a(data@) as nat, 8),
{
    let mut hash: u64 = FNV_OFFSET_BASIS;
    let mut i: usize = 0;
    proof {
        assert(data@.take(0) =~= Seq::<u8>::empty());
    }
    while i < data.len()
        invariant
            i <= data@.len(),
            hash == fnv1a(data@.take(i as int)),
        decreases data@.len() - i,
    {
        proof {
            let now = data@.take(i + 1);
            assert(now.drop_last() =~= data@.take(i as int));
            assert(now.last() == data@[i as int]);
        }
        hash = hash ^ (data[i] as u64);
        hash = hash.wrapping_mul(FNV_PRIME);
        i = i + 1;
    }
    proof {
        assert(data@.take(data@.len() as int) =~= data@);
    }
    word_to_le(hash)
}

/// Derives a symmetric key from a seed: the FNV-1a hash of the seed.
pub fn generate_aes_key(seed: &[u8]) -> (key: [u8; 8])
    ensures
        key@ == le_bytes(fnv1a(seed@) as nat, 8),
{
    fnv1a_hash(seed)
}

/// A key read back from its slot is the key that was written: `from_bytes` undoes
/// `to_bytes`.
pub proof fn lemma_key_bytes_round_trip(first: u64, second: u64)
    ensures
        pair_bytes(first, second).len() == 16,
        le_value(pair_bytes(first, second).subrange(0, 8)) == first,
        le_value(pair_bytes(first, second).subrange(8, 16)) == second,
{
    let low = le_bytes(first as nat, 8);
    let high = le_bytes(second as nat, 8);
    lemma_le_bytes_len(first as nat, 8);
    lemma_le_bytes_len(second as nat, 8);
    lemma_radix_values();
    lemma_le_value_of_bytes(first as nat, 8);
    lemma_le_value_of_bytes(second as nat, 8);
    assert((low + high).subrange(0, 8) =~= low);
    assert((low + high).subrange(8, 16) =~= high);
}

/// A slot written from the key that was read out of it holds what it held: `to_bytes`
/// undoes `from_bytes`.
pub proof fn lemma_key_slot_round_trip(slot: Seq<u8>)
    requires
        slot.len() == 16,
    ensures
        le_value(slot.subrange(0, 8)) <= u64::MAX,
        le_value(slot.subrange(8, 16)) <= u64::MAX,
        pair_bytes(le_value(slot.subrange(0, 8)) as u64, le_value(slot.subrange(8, 16)) as u64)
            == slot,
{
    let low = slot.subrange(0, 8);
    let high = slot.subrange(8, 16);
    lemma_radix_values();
    lemma_le_value_bound(low);
    lemma_le_value_bound(high);
    lemma_le_bytes_of_value(low);
    lemma_le_bytes_of_value(high);
    assert(low + high =~= slot);
}

/// Deciphering under the key that enciphered gives the plain text back, filled up
/// with zeros to a whole number of blocks.
pub proof fn lemma_aes_round_trip(key: Seq<u8>, data: Seq<u8>)
    requires
        key.len() == 8,
    ensures
        aes_decrypt_spec(key, aes_encrypt_spec(key, data)) == zero_padded(data),
{
    let cipher = aes_encrypt_spec(key, data);
    let plain = aes_decrypt_spec(key, cipher);
    assert(plain.len() == zero_padded(data).len());
    assert forall|j: int| 0 <= j < plain.len() implies plain[j] == zero_padded(data)[j] by {
        let i = (j / 8) as nat;
        let r = j % 8;
        let p = padded_block(data, i)[r];
        let k = key[r];
        assert(padded_block(cipher, i)[r] == cipher_block(key, data, i)[r]);
        if i == 0 {
            assert(((p ^ 0u8) ^ k) ^ k ^ 0u8 == p) by (bit_vector);
        } else {
            let before = cipher_block(key, data, (i - 1) as nat)[r];
            assert((8 * (i - 1) + r) / 8 == i - 1);
            assert((8 * (i - 1) + r) % 8 == r);
            assert(padded_block(cipher, (i - 1) as nat)[r] == before);
            assert(((p ^ before) ^ k) ^ k ^ before == p) by (bit_vector);
        }
    }
    assert(plain =~= zero_padded(data));
}

/// Deciphering under any other key never gives the plain text back.
pub proof fn lemma_aes_wrong_key(key: Seq<u8>, other: Seq<u8>, data: Seq<u8>)
    requires
        key.len() == 8,
        other.len() == 8,
        key != other,
        data.len() > 0,
    ensures
        aes_decrypt_spec(other, aes_encrypt_spec(key, data)) != zero_padded(data),
{
    if forall|r: int| 0 <= r < 8 ==> key[r] == other[r] {
        assert(key =~= other);
    }
    let r = choose|r: int| 0 <= r < 8 && key[r] != other[r];
    let cipher = aes_encrypt_spec(key, data);
    let plain = aes_decrypt_spec(other, cipher);
    let p = padded_block(data, 0)[r];
    let a = key[r];
    let b = other[r];
    assert(padded_block(cipher, 0)[r] == cipher_block(key, data, 0)[r]);
    assert(a != b ==> ((p ^ 0u8) ^ a) ^ b ^ 0u8 != p) by (bit_vector);
    assert(plain[r] == ((p ^ 0u8) ^ a) ^ b ^ 0u8);
    assert(zero_padded(data)[r] == p);
}

} // verus!
