//! What the two protocols share: messages, payloads, the properties of a
//! transfer that both parties must agree on, and the ways a transfer fails.

use crate::ot::primitives::{
    aes_gcm_decrypt, aes_gcm_open, aes_gcm_seal, openable, option_bytes, sealable, Key256,
};
use vstd::prelude::*;

verus! {

/// Why a transfer did not complete.
#[derive(Clone, Copy, Debug, PartialEq, Eq, Structural)]
pub enum OTError {
    /// The messages or choices handed in do not have a length that the
    /// protocol takes. Nothing has been sent.
    PreconditionViolation,
    /// The two parties do not agree on the properties of the transfer.
    TransactionMismatch,
    /// A frame could not be sent, received or read.
    TransportFailure,
    /// The consistency check found the other party's data inconsistent.
    CheatDetected,
    /// A ciphertext did not decrypt under the derived key.
    DecodeFailure,
}

/// The views of a sequence of byte vectors.
pub open spec fn byte_rows(rows: Seq<Vec<u8>>) -> Seq<Seq<u8>> {
    Seq::new(rows.len(), |i: int| rows[i]@)
}

/// The views of a sequence of 32-byte arrays.
pub open spec fn array_rows(rows: Seq<[u8; 32]>) -> Seq<Seq<u8>> {
    Seq::new(rows.len(), |i: int| rows[i]@)
}

/// The nonce under which every message is encrypted: the twelve bytes of
/// the text `unique nonce`. Each key encrypts one message only.
pub open spec fn nonce_bytes() -> Seq<u8> {
    seq![0x75u8, 0x6eu8, 0x69u8, 0x71u8, 0x75u8, 0x65u8, 0x20u8, 0x6eu8, 0x6fu8, 0x6eu8, 0x63u8, 0x65u8]
}

/// The nonce under which every message is encrypted.
pub fn nonce() -> (n: [u8; 12])
    ensures
        n@ == nonce_bytes(),
{
    let n: [u8; 12] = [
        0x75u8,
        0x6eu8,
        0x69u8,
        0x71u8,
        0x75u8,
        0x65u8,
        0x20u8,
        0x6eu8,
        0x6fu8,
        0x6eu8,
        0x63u8,
        0x65u8,
    ];
    assert(n@ =~= nonce_bytes());
    n
}

/// What a receiver ends up with: one byte string per choice.
pub type Payload = Vec<Vec<u8>>;

/// The pairs of messages that a sender offers: of pair `i` the receiver
/// gets the first message if its choice `i` is `false`, else the second.
#[derive(Debug)]
pub struct Message(pub Vec<[Vec<u8>; 2]>);

impl View for Message {
    type V = Seq<(Seq<u8>, Seq<u8>)>;

    open spec fn view(&self) -> Seq<(Seq<u8>, Seq<u8>)> {
        Seq::new(self.0@.len(), |i: int| (self.0@[i]@[0]@, self.0@[i]@[1]@))
    }
}

/// The message of pair `pair` that the choice `choice` selects.
pub open spec fn chosen(pair: (Seq<u8>, Seq<u8>), choice: bool) -> Seq<u8> {
    if choice {
        pair.1
    } else {
        pair.0
    }
}

/// A pair of messages, each encrypted under its key.
pub open spec fn sealed_pair(keys: (Seq<u8>, Seq<u8>), pair: (Seq<u8>, Seq<u8>)) -> (
    Seq<u8>,
    Seq<u8>,
) {
    (
        aes_gcm_seal(keys.0, nonce_bytes(), pair.0),
        aes_gcm_seal(keys.1, nonce_bytes(), pair.1),
    )
}

/// What a receiver gets out of `ciphertext` under `key`: nothing where the
/// ciphertext is too long for the cipher, else what the cipher recovers,
/// if the tag holds.
pub open spec fn opened(key: Seq<u8>, ciphertext: Seq<u8>) -> Option<Seq<u8>> {
    if openable(ciphertext.len()) {
        aes_gcm_open(key, nonce_bytes(), ciphertext)
    } else {
        None
    }
}

/// Whether `sealed` is the pair `pair` encrypted under `keys`: the cipher
/// takes both messages, each ciphertext is its message encrypted under
/// its key and 16 bytes longer, and each opens under its key to its
/// message.
pub open spec fn seals(
    keys: (Seq<u8>, Seq<u8>),
    pair: (Seq<u8>, Seq<u8>),
    sealed: (Seq<u8>, Seq<u8>),
) -> bool {
    &&& sealable(pair.0.len())
    &&& sealable(pair.1.len())
    &&& sealed == sealed_pair(keys, pair)
    &&& sealed.0.len() == pair.0.len() + 16
    &&& sealed.1.len() == pair.1.len() + 16
    &&& aes_gcm_open(keys.0, nonce_bytes(), sealed.0) == Some(pair.0)
    &&& aes_gcm_open(keys.1, nonce_bytes(), sealed.1) == Some(pair.1)
}

/// What sealed under a key opens under that key again.
pub proof fn lemma_sealed_opens(
    keys: (Seq<u8>, Seq<u8>),
    pair: (Seq<u8>, Seq<u8>),
    sealed: (Seq<u8>, Seq<u8>),
)
    requires
        seals(keys, pair, sealed),
    ensures
        opened(keys.0, sealed.0) == Some(pair.0),
        opened(keys.1, sealed.1) == Some(pair.1),
{
}

/// Opens `ciphertext` under `key`; a ciphertext of 2^36 bytes or more is
/// not handed to the cipher and opens to nothing.
pub fn open(key: &Key256, ciphertext: &[u8]) -> (plaintext: Option<Vec<u8>>)
    ensures
        option_bytes(plaintext) == opened(key@, ciphertext@),
{
    if ciphertext.len() as u64 >= 0x10_0000_0000u64 {
        return None;
    }
    let nonce = nonce();
    aes_gcm_decrypt(key, &nonce, ciphertext)
}

/// A copy of `bytes`.
pub fn copy_bytes(bytes: &[u8]) -> (copy: Vec<u8>)
    ensures
        copy@ == bytes@,
{
    let mut copy: Vec<u8> = Vec::with_capacity(bytes.len());
    let mut i: usize = 0;
    while i < bytes.len()
        invariant
            i <= bytes@.len(),
            copy@ == bytes@.take(i as int),
        decreases bytes@.len() - i,
    {
        copy.push(bytes[i]);
        assert(bytes@.take(i as int).push(bytes@[i as int]) =~= bytes@.take(i + 1));
        i += 1;
    }
    assert(bytes@.take(bytes@.len() as int) =~= bytes@);
    copy
}

impl Clone for Message {
    fn clone(&self) -> (copy: Self)
        ensures
            copy@ == self@,
    {
        let mut pairs: Vec<[Vec<u8>; 2]> = Vec::with_capacity(self.0.len());
        let mut i: usize = 0;
        while i < self.0.len()
            invariant
                i <= self.0@.len(),
                pairs@.len() == i,
                forall|k: int|
                    0 <= k < i ==> (#[trigger] pairs@[k])@[0]@ == self.0@[k]@[0]@ && pairs@[k]@[1]@
                        == self.0@[k]@[1]@,
            decreases self.0@.len() - i,
        {
            let pair = &self.0[i];
            let m0 = copy_bytes(pair[0].as_slice());
            let m1 = copy_bytes(pair[1].as_slice());
            pairs.push([m0, m1]);
            i += 1;
        }
        let copy = Message(pairs);
        assert(copy@ =~= self@);
        copy
    }
}

impl Message {
    /// The pairs made of the messages of `first` and of `second`, taken
    /// index by index.
    pub fn new(first: &[Vec<u8>], second: &[Vec<u8>]) -> (m: Message)
        requires
            first@.len() == second@.len(),
        ensures
            m@.len() == first@.len(),
            forall|i: int| 0 <= i < m@.len() ==> #[trigger] m@[i] == (first@[i]@, second@[i]@),
    {
        let mut pairs: Vec<[Vec<u8>; 2]> = Vec::with_capacity(first.len());
        let mut i: usize = 0;
        while i < first.len()
            invariant
                first@.len() == second@.len(),
                i <= first@.len(),
                pairs@.len() == i,
                forall|k: int|
                    0 <= k < i ==> (#[trigger] pairs@[k])@[0]@ == first@[k]@ && pairs@[k]@[1]@
                        == second@[k]@,
            decreases first@.len() - i,
        {
            let m0 = copy_bytes(first[i].as_slice());
            let m1 = copy_bytes(second[i].as_slice());
            pairs.push([m0, m1]);
            i += 1;
        }
        Message(pairs)
    }

    /// The pairs given as arrays of `N` bytes.
    pub fn new2<const N: usize>(pairs: &[[[u8; N]; 2]]) -> (m: Message)
        ensures
            m@.len() == pairs@.len(),
            forall|i: int|
                0 <= i < m@.len() ==> #[trigger] m@[i] == (pairs@[i]@[0]@, pairs@[i]@[1]@),
    {
        let mut out: Vec<[Vec<u8>; 2]> = Vec::with_capacity(pairs.len());
        let mut i: usize = 0;
        while i < pairs.len()
            invariant
                i <= pairs@.len(),
                out@.len() == i,
                forall|k: int|
                    0 <= k < i ==> (#[trigger] out@[k])@[0]@ == pairs@[k]@[0]@ && out@[k]@[1]@
                        == pairs@[k]@[1]@,
            decreases pairs@.len() - i,
        {
            let pair = &pairs[i];
            let m0 = copy_bytes(pair[0].as_slice());
            let m1 = copy_bytes(pair[1].as_slice());
            out.push([m0, m1]);
            i += 1;
        }
        Message(out)
    }

    /// The number of pairs.
    pub fn len(&self) -> (n: usize)
        ensures
            n == self@.len(),
    {
        self.0.len()
    }

    /// Whether there is no pair.
    pub fn is_empty(&self) -> (r: bool)
        ensures
            r == (self@.len() == 0),
    {
        self.0.len() == 0
    }
}

/// What both parties of a transfer must agree on before it starts.
#[derive(Clone, Copy, Debug, PartialEq, Eq, Structural)]
pub struct TransactionProperties {
    /// The number of messages to transfer.
    pub msg_size: usize,
}

/// Holds this party's properties against those the other party declared.
pub fn validate_properties(mine: &TransactionProperties, theirs: &TransactionProperties) -> (r:
    Result<(), OTError>)
    ensures
        r == if mine.msg_size == theirs.msg_size {
            Ok::<(), OTError>(())
        } else {
            Err::<(), OTError>(OTError::TransactionMismatch)
        },
{
    if mine.msg_size == theirs.msg_size {
        Ok(())
    } else {
        Err(OTError::TransactionMismatch)
    }
}

} // verus!
