//! The key exchange protocol and the dispatch of messages.
//!
//! Each device holds its key material in five slots and reasons from those slots and
//! from the message in front of it alone. One step of the protocol is a function from
//! the slots and a message to the new slots, at most one reply, and at most one signal
//! to the indicator. Reading and writing the slots, sending the reply and driving the
//! indicator are left to the caller.
//!
//! A symmetric key never crosses the link in the clear. A device that is asked for its
//! key encrypts it under the public key of the peer, and asks for that public key
//! first where it does not hold it.

use crate::buffer::{buffer_as_slice, contents, ByteBuffer};
use crate::bytes::{le_bytes, le_value, lemma_le_value_bound, lemma_radix_values};
use crate::crypt::{
    aes_decrypt, aes_decrypt_spec, aes_encrypt, aes_encrypt_spec, decrypt, encrypt, fnv1a,
    generate_aes_key, lemma_aes_round_trip, lemma_aes_wrong_key, pair_bytes, rsa_transform,
    zero_padded, RSAPrivateKey, RSAPublicKey,
};
use crate::messages::{Command, Data, DataView, Message, Status, Temperature};
use vstd::prelude::*;

verus! {

/// The width of the encrypted reading in a temperature message.
pub const TEMPERATURE_SIZE: usize = 32;

/// `n` zero bytes: what an empty slot holds.
pub open spec fn zeros(n: nat) -> Seq<u8> {
    Seq::new(n, |i: int| 0u8)
}

/// `bytes` filled up with zero bytes to the length `n`.
pub open spec fn pad_to(bytes: Seq<u8>, n: nat) -> Seq<u8> {
    Seq::new(
        n,
        |i: int|
            if i < bytes.len() {
                bytes[i]
            } else {
                0u8
            },
    )
}

/// The key slots of a device.
#[derive(Clone, Copy, Debug, PartialEq, Eq)]
pub struct KeyMaterial {
    /// The private key of the device, as `RSAPrivateKey::to_bytes` lays it out.
    pub rsa_private: [u8; 16],
    /// The public key of the device, as `RSAPublicKey::to_bytes` lays it out.
    pub rsa_public: [u8; 16],
    /// The symmetric key of the device; all zero where it has none.
    pub aes: [u8; 8],
    /// The symmetric key of the peer as last received; all zero where none was.
    pub peer_aes: [u8; 8],
    /// The public key of the peer as last received; all zero where none was.
    pub peer_rsa_public: [u8; 16],
}

/// The key slots of a device, as sequences.
pub struct Keys {
    pub rsa_private: Seq<u8>,
    pub rsa_public: Seq<u8>,
    pub aes: Seq<u8>,
    pub peer_aes: Seq<u8>,
    pub peer_rsa_public: Seq<u8>,
}

impl View for KeyMaterial {
    type V = Keys;

    open spec fn view(&self) -> Keys {
        Keys {
            rsa_private: self.rsa_private@,
            rsa_public: self.rsa_public@,
            aes: self.aes@,
            peer_aes: self.peer_aes@,
            peer_rsa_public: self.peer_rsa_public@,
        }
    }
}

/// What a device infers about the symmetric keys from its own slots.
#[derive(Clone, Copy, Debug, PartialEq, Eq, Structural)]
pub enum KeyState {
    /// The device has no symmetric key.
    Uninitialized,
    /// The device has a key and has received none from the peer.
    LocalKeyReady,
    /// The key of the device is the key received from the peer.
    Synchronized,
    /// The key of the device differs from the key received from the peer.
    Desynchronized,
}

/// The level that the indicator is to show.
#[derive(Clone, Copy, Debug, PartialEq, Eq, Structural)]
pub enum Level {
    Normal,
    Alert,
}

/// What a device does on a message.
#[derive(Clone, Copy, Debug, PartialEq, Eq)]
pub struct Reaction {
    /// The key slots after the message.
    pub keys: KeyMaterial,
    /// The message to send back, if any.
    pub reply: Option<Data>,
    /// The level to show on the indicator, if any.
    pub signal: Option<Level>,
}

/// What a device does on a message, as sequences.
pub struct ReactionView {
    pub keys: Keys,
    pub reply: Option<DataView>,
    pub signal: Option<Level>,
}

/// The view of a reply.
pub open spec fn reply_view(reply: Option<Data>) -> Option<DataView> {
    match reply {
        Some(data) => Some(data@),
        None => None,
    }
}

impl View for Reaction {
    type V = ReactionView;

    open spec fn view(&self) -> ReactionView {
        ReactionView { keys: self.keys@, reply: reply_view(self.reply), signal: self.signal }
    }
}

/// What a device does in one turn of its loop.
#[derive(Clone, Copy, Debug, PartialEq, Eq)]
pub struct Tick {
    /// The key slots after the turn.
    pub keys: KeyMaterial,
    /// The reply to the message of this turn, to be sent first, if any.
    pub reply: Option<Data>,
    /// The request for the key of the peer, to be sent after the reply, if any.
    pub request: Option<Data>,
    /// The level to show on the indicator, if any.
    pub signal: Option<Level>,
}

/// What a device does in one turn of its loop, as sequences.
pub struct TickView {
    pub keys: Keys,
    pub reply: Option<DataView>,
    pub request: Option<DataView>,
    pub signal: Option<Level>,
}

impl View for Tick {
    type V = TickView;

    open spec fn view(&self) -> TickView {
        TickView {
            keys: self.keys@,
            reply: reply_view(self.reply),
            request: reply_view(self.request),
            signal: self.signal,
        }
    }
}

/// The two words that a sixteen byte key slot holds.
pub open spec fn slot_words(slot: Seq<u8>) -> (u64, u64) {
    (le_value(slot.subrange(0, 8)) as u64, le_value(slot.subrange(8, 16)) as u64)
}

impl Keys {
    /// The public key of the device.
    pub open spec fn public_key(self) -> RSAPublicKey {
        RSAPublicKey { n: slot_words(self.rsa_public).0, e: slot_words(self.rsa_public).1 }
    }

    /// The private key of the device.
    pub open spec fn private_key(self) -> RSAPrivateKey {
        RSAPrivateKey { n: slot_words(self.rsa_private).0, d: slot_words(self.rsa_private).1 }
    }

    /// The public key of the peer. A modulus of zero says that none is held.
    pub open spec fn peer_public_key(self) -> RSAPublicKey {
        RSAPublicKey {
            n: slot_words(self.peer_rsa_public).0,
            e: slot_words(self.peer_rsa_public).1,
        }
    }

    /// Whether the device can decrypt what is encrypted for it: the modulus of its
    /// private key is not zero.
    pub open spec fn can_decrypt(self) -> bool {
        self.private_key().n != 0
    }

    /// What the slots say about the symmetric keys.
    pub open spec fn state(self) -> KeyState {
        if self.aes == zeros(8) {
            KeyState::Uninitialized
        } else if self.aes == self.peer_aes {
            KeyState::Synchronized
        } else if self.peer_aes == zeros(8) {
            KeyState::LocalKeyReady
        } else {
            KeyState::Desynchronized
        }
    }

    /// The request that a device makes at the end of each turn: where its key is not
    /// the key received from the peer, it asks the peer for the key again.
    pub open spec fn sync_request(self) -> Option<DataView> {
        if self.aes == self.peer_aes {
            None
        } else {
            Some(DataView::Status(Status::UnkownAESKey))
        }
    }

    /// The slots with the symmetric key erased.
    pub open spec fn without_aes(self) -> Keys {
        Keys { aes: zeros(8), ..self }
    }

    /// The plain bytes of an encrypted reading: the reading deciphered under the
    /// symmetric key of the device.
    pub open spec fn opened(self, reading: Seq<u8>) -> Seq<u8> {
        aes_decrypt_spec(self.aes, reading)
    }

    /// What the device does on a message with the body `data`. `reading` is what
    /// deserialising `opened` of an encrypted reading gave, and counts for a
    /// temperature message only.
    ///
    /// - The command to delete the key erases the symmetric key.
    /// - A public key is stored as the key of the peer.
    /// - A peer that lacks the symmetric key is sent the key, encrypted under the
    ///   public key of the peer; where that is not held, the peer is asked for it.
    /// - A peer that lacks the public key is sent the public key.
    /// - A symmetric key is decrypted under the private key and stored as the key of
    ///   the peer.
    /// - A reading that could be deserialised is signalled: alert above the limit,
    ///   normal otherwise. One that could not be is taken as proof that the keys
    ///   differ: the symmetric key is erased and the peer is told to erase its own.
    pub open spec fn dispatched(
        self,
        data: DataView,
        reading: Option<Temperature>,
    ) -> ReactionView {
        match data {
            DataView::Command(Command::DeleteAESKey) => ReactionView {
                keys: self.without_aes(),
                reply: None,
                signal: None,
            },
            DataView::RSAPublicKey(key) => ReactionView {
                keys: Keys { peer_rsa_public: pair_bytes(key.n, key.e), ..self },
                reply: None,
                signal: None,
            },
            DataView::Status(Status::UnkownAESKey) => ReactionView {
                keys: self,
                reply: if self.peer_public_key().n == 0 {
                    Some(DataView::Status(Status::UnkownPublicKey))
                } else {
                    Some(
                        DataView::AESKey(
                            rsa_transform(
                                self.aes,
                                self.peer_public_key().e,
                                self.peer_public_key().n,
                            ),
                        ),
                    )
                },
                signal: None,
            },
            DataView::Status(Status::UnkownPublicKey) => ReactionView {
                keys: self,
                reply: Some(DataView::RSAPublicKey(self.public_key())),
                signal: None,
            },
            DataView::AESKey(encrypted) => ReactionView {
                keys: Keys {
                    peer_aes: rsa_transform(encrypted, self.private_key().d, self.private_key().n),
                    ..self
                },
                reply: None,
                signal: None,
            },
            DataView::Temperature(_) => match reading {
                Some(reading) => ReactionView {
                    keys: self,
                    reply: None,
                    signal: Some(
                        if reading.above_limit() {
                            Level::Alert
                        } else {
                            Level::Normal
                        },
                    ),
                },
                None => ReactionView {
                    keys: self.without_aes(),
                    reply: Some(DataView::Command(Command::DeleteAESKey)),
                    signal: None,
                },
            },
        }
    }

    /// One turn of the loop: the message, if there is one, is dispatched, and then,
    /// in every turn, the keys are compared and the key of the peer is asked for
    /// where they differ.
    pub open spec fn ticked(
        self,
        data: Option<DataView>,
        reading: Option<Temperature>,
    ) -> TickView {
        let reaction = match data {
            Some(data) => self.dispatched(data, reading),
            None => ReactionView { keys: self, reply: None, signal: None },
        };
        TickView {
            keys: reaction.keys,
            reply: reaction.reply,
            request: reaction.keys.sync_request(),
            signal: reaction.signal,
        }
    }
}

/// Whether two byte strings of the same length are equal.
fn same_bytes(a: &[u8], b: &[u8]) -> (same: bool)
    requires
        a@.len() == b@.len(),
    ensures
        same == (a@ == b@),
{
    let mut i: usize = 0;
    while i < a.len()
        invariant
            i <= a@.len() == b@.len(),
            forall|j: int| 0 <= j < i ==> a@[j] == b@[j],
        decreases a@.len() - i,
    {
        if a[i] != b[i] {
            return false;
        }
        i = i + 1;
    }
    proof {
        assert(a@ =~= b@);
    }
    true
}

/// Whether a byte string is all zero.
fn all_zero(a: &[u8]) -> (zero: bool)
    ensures
        zero == (a@ == zeros(a@.len())),
{
    let mut i: usize = 0;
    while i < a.len()
        invariant
            i <= a@.len(),
            forall|j: int| 0 <= j < i ==> a@[j] == 0u8,
        decreases a@.len() - i,
    {
        if a[i] != 0 {
            assert(zeros(a@.len())[i as int] == 0u8);
            return false;
        }
        i = i + 1;
    }
    proof {
        assert(a@ =~= zeros(a@.len()));
    }
    true
}

impl KeyMaterial {
    /// The public key of the device.
    pub fn public_key(&self) -> (key: RSAPublicKey)
        ensures
            key == self@.public_key(),
    {
        proof {
            lemma_slot_words(self.rsa_public@);
        }
        RSAPublicKey::from_bytes(&self.rsa_public)
    }

    /// The private key of the device.
    pub fn private_key(&self) -> (key: RSAPrivateKey)
        ensures
            key == self@.private_key(),
    {
        proof {
            lemma_slot_words(self.rsa_private@);
        }
        RSAPrivateKey::from_bytes(&self.rsa_private)
    }

    /// The public key of the peer.
    pub fn peer_public_key(&self) -> (key: RSAPublicKey)
        ensures
            key == self@.peer_public_key(),
    {
        proof {
            lemma_slot_words(self.peer_rsa_public@);
        }
        RSAPublicKey::from_bytes(&self.peer_rsa_public)
    }

    /// Whether the device can decrypt what is encrypted for it.
    pub fn can_decrypt(&self) -> (able: bool)
        ensures
            able == self@.can_decrypt(),
    {
        self.private_key().n != 0
    }

    /// What the slots say about the symmetric keys.
    pub fn state(&self) -> (state: KeyState)
        ensures
            state == self@.state(),
    {
        if all_zero(self.aes.as_slice()) {
            KeyState::Uninitialized
        } else if same_bytes(self.aes.as_slice(), self.peer_aes.as_slice()) {
            KeyState::Synchronized
        } else if all_zero(self.peer_aes.as_slice()) {
            KeyState::LocalKeyReady
        } else {
            KeyState::Desynchronized
        }
    }
}

/// The words of a key slot fit a machine word each.
proof fn lemma_slot_words(slot: Seq<u8>)
    requires
        slot.len() == 16,
    ensures
        slot_words(slot).0 == le_value(slot.subrange(0, 8)),
        slot_words(slot).1 == le_value(slot.subrange(8, 16)),
{
    lemma_radix_values();
    lemma_le_value_bound(slot.subrange(0, 8));
    lemma_le_value_bound(slot.subrange(8, 16));
}

/// The key slots of a device at its first start: its key pair, the symmetric key
/// derived from `seed`, and nothing yet of the peer.
pub fn provision(public: &RSAPublicKey, private: &RSAPrivateKey, seed: &[u8]) -> (keys:
    KeyMaterial)
    ensures
        keys@ == (Keys {
            rsa_private: pair_bytes(private.n, private.d),
            rsa_public: pair_bytes(public.n, public.e),
            aes: le_bytes(fnv1a(seed@) as nat, 8),
            peer_aes: zeros(8),
            peer_rsa_public: zeros(16),
        }),
{
    let keys = KeyMaterial {
        rsa_private: private.to_bytes(),
        rsa_public: public.to_bytes(),
        aes: generate_aes_key(seed),
        peer_aes: [0u8; 8],
        peer_rsa_public: [0u8; 16],
    };
    proof {
        assert(keys.peer_aes@ =~= zeros(8));
        assert(keys.peer_rsa_public@ =~= zeros(16));
    }
    keys
}

/// The request that closes each turn: the key of the peer is asked for where the key
/// of the device is not the key last received from the peer.
pub fn sync_request(keys: &KeyMaterial) -> (request: Option<Data>)
    ensures
        reply_view(request) == keys@.sync_request(),
{
    if same_bytes(keys.aes.as_slice(), keys.peer_aes.as_slice()) {
        None
    } else {
        Some(Data::Status(Status::UnkownAESKey))
    }
}

/// Deciphers an encrypted reading under the symmetric key of the device. What comes
/// out is to be deserialised before the message is dispatched.
pub fn open_temperature(keys: &KeyMaterial, reading: &[u8; 32]) -> (plain: ByteBuffer)
    ensures
        contents(plain) == keys@.opened(reading@),
{
    aes_decrypt(&keys.aes, reading.as_slice())
}

/// Makes a temperature message of a serialised reading: the reading is filled up with
/// zeros to thirty-two bytes and enciphered under `key`. A reading that is longer
/// than that gives nothing.
pub fn seal_temperature(key: &[u8; 8], serialized: &[u8]) -> (sealed: Option<Data>)
    ensures
        sealed is Some <==> serialized@.len() <= TEMPERATURE_SIZE,
        sealed is Some ==> sealed->Some_0@ == DataView::Temperature(
            aes_encrypt_spec(key@, pad_to(serialized@, 32)),
        ),
{
    if serialized.len() > TEMPERATURE_SIZE {
        return None;
    }
    let mut plain: [u8; 32] = [0u8; 32];
    let mut i: usize = 0;
    while i < serialized.len()
        invariant
            i <= serialized@.len() <= 32,
            forall|j: int| 0 <= j < i ==> plain@[j] == serialized@[j],
            forall|j: int| i <= j < 32 ==> plain@[j] == 0u8,
        decreases serialized@.len() - i,
    {
        plain[i] = serialized[i];
        i = i + 1;
    }
    proof {
        assert(plain@ =~= pad_to(serialized@, 32));
    }
    let encrypted = aes_encrypt(key, plain.as_slice());
    let bytes = buffer_as_slice(&encrypted);
    let mut reading: [u8; 32] = [0u8; 32];
    let mut k: usize = 0;
    while k < 32
        invariant
            k <= 32,
            bytes@.len() == 32,
            forall|j: int| 0 <= j < k ==> reading@[j] == bytes@[j],
        decreases 32 - k,
    {
        reading[k] = bytes[k];
        k = k + 1;
    }
    proof {
        assert(reading@ =~= bytes@);
    }
    Some(Data::Temperature(reading))
}

/// Dispatches one message. `reading` is what deserialising
/// `open_temperature(keys, ..)` gave for a temperature message, and is not looked at
/// for any other.
pub fn dispatch(keys: &KeyMaterial, message: &Message, reading: Option<Temperature>) -> (reaction:
    Reaction)
    requires
        message.data is AESKey ==> keys@.can_decrypt(),
    ensures
        reaction@ == keys@.dispatched(message.data@, reading),
{
    match message.data {
        Data::Command(Command::DeleteAESKey) => {
            let erased = erase_aes(keys);
            Reaction { keys: erased, reply: None, signal: None }
        },
        Data::RSAPublicKey(key) => {
            let mut stored = *keys;
            stored.peer_rsa_public = key.to_bytes();
            Reaction { keys: stored, reply: None, signal: None }
        },
        Data::Status(Status::UnkownAESKey) => {
            let peer = keys.peer_public_key();
            if peer.n == 0 {
                Reaction {
                    keys: *keys,
                    reply: Some(Data::Status(Status::UnkownPublicKey)),
                    signal: None,
                }
            } else {
                let encrypted = encrypt(&peer, keys.aes.as_slice());
                Reaction { keys: *keys, reply: Some(Data::AESKey(encrypted)), signal: None }
            }
        },
        Data::Status(Status::UnkownPublicKey) => {
            let own = keys.public_key();
            Reaction { keys: *keys, reply: Some(Data::RSAPublicKey(own)), signal: None }
        },
        Data::AESKey(encrypted) => {
            let private = keys.private_key();
            let mut stored = *keys;
            stored.peer_aes = decrypt(&private, encrypted.as_slice());
            Reaction { keys: stored, reply: None, signal: None }
        },
        Data::Temperature(_) => match reading {
            Some(reading) => {
                let level = if reading.is_above_limit() {
                    Level::Alert
                } else {
                    Level::Normal
                };
                Reaction { keys: *keys, reply: None, signal: Some(level) }
            },
            None => {
                let erased = erase_aes(keys);
                Reaction {
                    keys: erased,
                    reply: Some(Data::Command(Command::DeleteAESKey)),
                    signal: None,
                }
            },
        },
    }
}

/// The slots with the symmetric key erased.
fn erase_aes(keys: &KeyMaterial) -> (erased: KeyMaterial)
    ensures
        erased@ == keys@.without_aes(),
{
    let mut erased = *keys;
    erased.aes = [0u8; 8];
    proof {
        assert(erased.aes@ =~= zeros(8));
    }
    erased
}

/// One turn of the loop of a device: dispatches the message of this turn, if there is
/// one, and then checks the keys.
pub fn tick(keys: &KeyMaterial, message: Option<Message>, reading: Option<Temperature>) -> (turn:
    Tick)
    requires
        message is Some && message->Some_0.data is AESKey ==> keys@.can_decrypt(),
    ensures
        turn@ == keys@.ticked(
            match message {
                Some(message) => Some(message.data@),
                None => None,
            },
            reading,
        ),
{
    let reaction = match message {
        Some(message) => dispatch(keys, &message, reading),
        None => Reaction { keys: *keys, reply: None, signal: None },
    };
    let request = sync_request(&reaction.keys);
    Tick { keys: reaction.keys, reply: reaction.reply, request, signal: reaction.signal }
}

/// Recovery from a key mismatch. A reading that cannot be deserialised erases the
/// symmetric key of the device, leaves every other slot as it was, gives no signal,
/// and tells the peer once to erase its key: the command is the reply of the turn
/// and the request of the turn is never that command. Nothing else makes a device
/// send the command.
pub proof fn lemma_key_mismatch_recovery(keys: Keys, data: DataView, reading: Option<Temperature>)
    ensures
        data is Temperature && reading is None ==> {
            &&& keys.dispatched(data, reading).keys == keys.without_aes()
            &&& keys.dispatched(data, reading).keys.aes == zeros(8)
            &&& keys.dispatched(data, reading).signal is None
        },
        keys.dispatched(data, reading).reply == Some(DataView::Command(Command::DeleteAESKey))
            <==> data is Temperature && reading is None,
        keys.ticked(Some(data), reading).reply == keys.dispatched(data, reading).reply,
        keys.ticked(Some(data), reading).request != Some(
            DataView::Command(Command::DeleteAESKey),
        ),
        keys.ticked(None, reading).reply is None,
{
}

/// A reading under the limit, at the limit or above it. A reading that could be
/// deserialised changes no slot and is answered by no message; it raises the alert
/// where it is above one hundred degrees and shows normal otherwise, at one hundred
/// degrees too.
pub proof fn lemma_threshold(keys: Keys, encrypted: Seq<u8>, reading: Temperature)
    ensures
        keys.dispatched(DataView::Temperature(encrypted), Some(reading)).keys == keys,
        keys.dispatched(DataView::Temperature(encrypted), Some(reading)).reply is None,
        keys.dispatched(DataView::Temperature(encrypted), Some(reading)).signal == Some(
            if reading.temp_bits > 0x42C8_0000 && reading.temp_bits <= 0x7F80_0000 {
                Level::Alert
            } else {
                Level::Normal
            },
        ),
{
}

/// A sealed reading opens under the key that sealed it and under no other. Opening
/// under the same key gives the serialised reading, filled up with zeros; opening
/// under a different key never does.
pub proof fn lemma_sealed_reading(key: Seq<u8>, other: Seq<u8>, serialized: Seq<u8>)
    requires
        key.len() == 8,
        other.len() == 8,
        serialized.len() <= TEMPERATURE_SIZE,
    ensures
        aes_decrypt_spec(key, aes_encrypt_spec(key, pad_to(serialized, 32))) == pad_to(
            serialized,
            32,
        ),
        other != key ==> aes_decrypt_spec(other, aes_encrypt_spec(key, pad_to(serialized, 32)))
            != pad_to(serialized, 32),
{
    let plain = pad_to(serialized, 32);
    assert(zero_padded(plain) =~= plain);
    lemma_aes_round_trip(key, plain);
    if other != key {
        lemma_aes_wrong_key(key, other, plain);
    }
}

/// The states and the request. A device asks for the key of the peer exactly where
/// its own key is not the key last received: never in the state `Synchronized`,
/// always in the states `LocalKeyReady` and `Desynchronized`. Erasing the key leaves
/// the device without one.
pub proof fn lemma_key_states(keys: Keys)
    requires
        keys.aes.len() == 8,
        keys.peer_aes.len() == 8,
    ensures
        keys.sync_request() is None <==> keys.aes == keys.peer_aes,
        keys.state() == KeyState::Synchronized ==> keys.sync_request() is None,
        keys.state() == KeyState::LocalKeyReady || keys.state() == KeyState::Desynchronized
            ==> keys.sync_request() == Some(DataView::Status(Status::UnkownAESKey)),
        keys.without_aes().state() == KeyState::Uninitialized,
{
}

/// Delivery of a key. Let `holder` hold the public key of `asker`, and let the key
/// pair of `asker` undo on the symmetric key of `holder` what it does. Then the
/// answer of `holder` to the request of `asker` is an encrypted key, and when `asker`
/// has dispatched that answer its slot for the key of the peer holds the symmetric
/// key of `holder`; no other slot of either device has changed.
pub proof fn lemma_key_delivery(asker: Keys, holder: Keys)
    requires
        holder.peer_public_key() == asker.public_key(),
        asker.public_key().n != 0,
        rsa_transform(
            rsa_transform(holder.aes, asker.public_key().e, asker.public_key().n),
            asker.private_key().d,
            asker.private_key().n,
        ) == holder.aes,
    ensures
        holder.dispatched(DataView::Status(Status::UnkownAESKey), None).keys == holder,
        holder.dispatched(DataView::Status(Status::UnkownAESKey), None).reply is Some,
        holder.dispatched(DataView::Status(Status::UnkownAESKey), None).reply->Some_0 is AESKey,
        asker.dispatched(
            holder.dispatched(DataView::Status(Status::UnkownAESKey), None).reply->Some_0,
            None,
        ).keys == (Keys { peer_aes: holder.aes, ..asker }),
{
}

} // verus!
