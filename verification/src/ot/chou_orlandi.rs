//! Base oblivious transfer over the Ed25519 group.
//!
//! For each of its pairs the sender holds a secret scalar `a` and publishes
//! `A = a G`. The receiver holds a secret scalar `b` and answers with
//! `B = b G` if its choice is `false`, with `B = A + b G` if it is `true`.
//! The sender encrypts the first message under the hash of `a B` and the
//! second under the hash of `a (B - A)`; the receiver decrypts the one it
//! chose under the hash of `b A`.

use crate::ot::common::{
    array_rows, byte_rows, chosen, copy_bytes, nonce, nonce_bytes, open, opened, seals, Message,
    OTError,
};
use crate::ot::primitives::{
    aes_gcm_encrypt, base_mul, ed25519_add,
    ed25519_base_mul, ed25519_mul, ed25519_sub, point_add, point_mul, point_sub, random_scalar,
    sealable, sha256, sha256_digest, Bytes32, Key256,
};
use crate::util::to_array;
use vstd::prelude::*;

verus! {

/// The public group elements of one party, one per transfer, compressed.
#[derive(Debug)]
pub struct Public(pub Vec<Bytes32>);

impl View for Public {
    type V = Seq<Seq<u8>>;

    open spec fn view(&self) -> Seq<Seq<u8>> {
        array_rows(self.0@)
    }
}

impl Clone for Public {
    fn clone(&self) -> (copy: Self)
        ensures
            copy@ == self@,
    {
        let copy = Public(copy_arrays(&self.0));
        assert(copy@ =~= self@);
        copy
    }
}

impl Public {
    /// The elements that `frames` hold, one per frame. Fails unless every
    /// frame is 32 bytes long.
    pub fn from_frames(frames: &Vec<Vec<u8>>) -> (r: Result<Public, OTError>)
        ensures
            r is Ok <==> forall|i: int|
                0 <= i < frames@.len() ==> (#[trigger] frames@[i])@.len() == 32,
            r matches Ok(publics) ==> publics@ == byte_rows(frames@),
            r matches Err(e) ==> e == OTError::TransportFailure,
    {
        let mut elements: Vec<Bytes32> = Vec::with_capacity(frames.len());
        let mut i: usize = 0;
        while i < frames.len()
            invariant
                i <= frames@.len(),
                elements@.len() == i,
                forall|k: int| 0 <= k < i ==> (#[trigger] frames@[k])@.len() == 32,
                forall|k: int| 0 <= k < i ==> (#[trigger] elements@[k])@ == frames@[k]@,
            decreases frames@.len() - i,
        {
            if frames[i].len() != 32 {
                return Err(OTError::TransportFailure);
            }
            elements.push(to_array(frames[i].as_slice()));
            i += 1;
        }
        let publics = Public(elements);
        assert(publics@ =~= byte_rows(frames@));
        Ok(publics)
    }

    /// The elements as frames, one per element.
    pub fn to_frames(&self) -> (frames: Vec<Vec<u8>>)
        ensures
            byte_rows(frames@) == self@,
    {
        let mut frames: Vec<Vec<u8>> = Vec::with_capacity(self.0.len());
        let mut i: usize = 0;
        while i < self.0.len()
            invariant
                i <= self.0@.len(),
                frames@.len() == i,
                forall|k: int| 0 <= k < i ==> (#[trigger] frames@[k])@ == self.0@[k]@,
            decreases self.0@.len() - i,
        {
            frames.push(copy_bytes(self.0[i].as_slice()));
            i += 1;
        }
        assert(byte_rows(frames@) =~= self@);
        frames
    }
}

/// The two ciphertexts of one pair of messages.
pub type CiphertextPair = [Vec<u8>; 2];

/// What the sender hands over in the last round: for each pair of messages
/// its two ciphertexts.
#[derive(Debug)]
pub struct EncryptedPayload(pub Vec<CiphertextPair>);

impl View for EncryptedPayload {
    type V = Seq<(Seq<u8>, Seq<u8>)>;

    open spec fn view(&self) -> Seq<(Seq<u8>, Seq<u8>)> {
        Seq::new(self.0@.len(), |i: int| (self.0@[i]@[0]@, self.0@[i]@[1]@))
    }
}

/// The two keys of the sender for one transfer: the hashes of `a B` and of
/// `a (B - A)`, where `B` is `their_public`, `A` is `own_public` and `a` is
/// `secret`. `None` where `B` or `A` is no point of the curve.
pub open spec fn sender_keys(their_public: Seq<u8>, own_public: Seq<u8>, secret: Seq<u8>) -> Option<
    (Seq<u8>, Seq<u8>),
> {
    match (ed25519_mul(their_public, secret), ed25519_sub(their_public, own_public)) {
        (Some(shared), Some(unmasked)) => match ed25519_mul(unmasked, secret) {
            Some(other) => Some((sha256_digest(shared), sha256_digest(other))),
            None => None,
        },
        _ => None,
    }
}

/// The public element of the receiver for one transfer: `b G` for the
/// choice `false`, `A + b G` for the choice `true`, where `A` is
/// `their_public` and `b` is `secret`.
pub open spec fn receiver_public(their_public: Seq<u8>, secret: Seq<u8>, choice: bool) -> Option<
    Seq<u8>,
> {
    if choice {
        ed25519_add(their_public, ed25519_base_mul(secret))
    } else {
        Some(ed25519_base_mul(secret))
    }
}

/// The key of the receiver for one transfer: the hash of `b A`.
pub open spec fn receiver_key(their_public: Seq<u8>, secret: Seq<u8>) -> Option<Seq<u8>> {
    match ed25519_mul(their_public, secret) {
        Some(shared) => Some(sha256_digest(shared)),
        None => None,
    }
}

/// Whether the cipher takes every message of `messages`.
pub open spec fn all_sealable(messages: Seq<(Seq<u8>, Seq<u8>)>) -> bool {
    forall|i: int|
        0 <= i < messages.len() ==> sealable((#[trigger] messages[i]).0.len()) && sealable(
            messages[i].1.len(),
        )
}

/// Whether the cipher takes every message of `messages`.
pub fn fits_cipher(messages: &Message) -> (r: bool)
    ensures
        r == all_sealable(messages@),
{
    let mut i: usize = 0;
    while i < messages.0.len()
        invariant
            i <= messages@.len(),
            forall|k: int|
                0 <= k < i ==> sealable((#[trigger] messages@[k]).0.len()) && sealable(
                    messages@[k].1.len(),
                ),
        decreases messages@.len() - i,
    {
        let pair = &messages.0[i];
        assert(messages@[i as int] == (pair@[0]@, pair@[1]@));
        if !fits(pair[0].len()) || !fits(pair[1].len()) {
            return false;
        }
        i += 1;
    }
    true
}

/// Whether the cipher takes a plaintext of `len` bytes.
fn fits(len: usize) -> (r: bool)
    ensures
        r == sealable(len as nat),
{
    (len as u64) < 0x10_0000_0000u64 - 16 && len <= isize::MAX as usize - 16
}

/// A copy of a vector of arrays.
fn copy_arrays(rows: &Vec<Bytes32>) -> (copy: Vec<Bytes32>)
    ensures
        copy@ == rows@,
{
    let mut copy: Vec<Bytes32> = Vec::with_capacity(rows.len());
    let mut i: usize = 0;
    while i < rows.len()
        invariant
            i <= rows@.len(),
            copy@ == rows@.take(i as int),
        decreases rows@.len() - i,
    {
        copy.push(rows[i]);
        assert(rows@.take(i as int).push(rows@[i as int]) =~= rows@.take(i + 1));
        i += 1;
    }
    assert(rows@.take(rows@.len() as int) =~= rows@);
    copy
}

/// A copy of a vector of choices.
fn copy_choices(choices: &[bool]) -> (copy: Vec<bool>)
    ensures
        copy@ == choices@,
{
    let mut copy: Vec<bool> = Vec::with_capacity(choices.len());
    let mut i: usize = 0;
    while i < choices.len()
        invariant
            i <= choices@.len(),
            copy@ == choices@.take(i as int),
        decreases choices@.len() - i,
    {
        copy.push(choices[i]);
        assert(choices@.take(i as int).push(choices@[i as int]) =~= choices@.take(i + 1));
        i += 1;
    }
    assert(choices@.take(choices@.len() as int) =~= choices@);
    copy
}

/// `count` fresh random scalars.
fn random_scalars(count: usize) -> (secrets: Vec<Bytes32>)
    ensures
        secrets@.len() == count,
{
    let mut secrets: Vec<Bytes32> = Vec::with_capacity(count);
    let mut i: usize = 0;
    while i < count
        invariant
            i <= count,
            secrets@.len() == i,
        decreases count - i,
    {
        secrets.push(random_scalar());
        i += 1;
    }
    secrets
}

/// The sending party of a base transfer.
pub struct Sender {
    secrets: Vec<Bytes32>,
    publics: Public,
    messages: Message,
}

impl Sender {
    /// The secret scalars, one per pair of messages.
    pub closed spec fn secrets(&self) -> Seq<Seq<u8>> {
        array_rows(self.secrets@)
    }

    /// The public elements, one per pair of messages.
    pub closed spec fn publics(&self) -> Seq<Seq<u8>> {
        self.publics@
    }

    /// The pairs of messages on offer.
    pub closed spec fn messages(&self) -> Seq<(Seq<u8>, Seq<u8>)> {
        self.messages@
    }

    /// There is one secret and one public element per pair of messages,
    /// each public element is the base point times its secret, and the
    /// cipher takes every message.
    pub open spec fn wf(&self) -> bool {
        &&& self.secrets().len() == self.messages().len()
        &&& self.publics().len() == self.messages().len()
        &&& forall|i: int|
            0 <= i < self.publics().len() ==> #[trigger] self.publics()[i] == ed25519_base_mul(
                self.secrets()[i],
            )
        &&& all_sealable(self.messages())
    }

    /// A sender for `messages`, with fresh random secrets.
    pub fn new(messages: &Message) -> (sender: Self)
        requires
            all_sealable(messages@),
        ensures
            sender.wf(),
            sender.messages() == messages@,
    {
        let secrets = random_scalars(messages.len());
        Sender::with_secrets(messages, secrets)
    }

    /// A sender for `messages` with the given secrets.
    pub fn with_secrets(messages: &Message, secrets: Vec<Bytes32>) -> (sender: Self)
        requires
            all_sealable(messages@),
            secrets@.len() == messages@.len(),
        ensures
            sender.wf(),
            sender.messages() == messages@,
            sender.secrets() == array_rows(secrets@),
    {
        let n = secrets.len();
        let mut publics: Vec<Bytes32> = Vec::with_capacity(n);
        let mut i: usize = 0;
        while i < n
            invariant
                n == secrets@.len(),
                i <= n,
                publics@.len() == i,
                forall|k: int|
                    0 <= k < i ==> (#[trigger] publics@[k])@ == ed25519_base_mul(secrets@[k]@),
            decreases n - i,
        {
            publics.push(base_mul(&secrets[i]));
            i += 1;
        }
        Sender { secrets, publics: Public(publics), messages: messages.clone() }
    }

    /// The public elements to send to the receiver.
    pub fn public(&self) -> (publics: Public)
        ensures
            publics@ == self.publics(),
    {
        self.publics.clone()
    }

    /// Takes the receiver's public elements and encrypts each pair of
    /// messages under the two keys derived for it. Fails where the receiver
    /// sent another number of elements than there are pairs, or an element
    /// that is no point of the curve.
    pub fn accept(&self, their_public: &Public) -> (r: Result<EncryptedPayload, OTError>)
        requires
            self.wf(),
        ensures
            r is Ok <==> their_public@.len() == self.messages().len() && forall|i: int|
                0 <= i < self.messages().len() ==> (#[trigger] sender_keys(
                    their_public@[i],
                    self.publics()[i],
                    self.secrets()[i],
                )) is Some,
            r matches Ok(payload) ==> payload@.len() == self.messages().len() && forall|i: int|
                0 <= i < self.messages().len() ==> seals(
                    sender_keys(their_public@[i], self.publics()[i], self.secrets()[i]).unwrap(),
                    self.messages()[i],
                    #[trigger] payload@[i],
                ),
            r matches Err(e) ==> e == OTError::TransportFailure,
    {
        let n = self.messages.len();
        if their_public.0.len() != n {
            return Err(OTError::TransportFailure);
        }
        let nonce = nonce();
        let mut payload: Vec<CiphertextPair> = Vec::with_capacity(n);
        let mut i: usize = 0;
        while i < n
            invariant
                self.wf(),
                n == self.messages().len(),
                their_public@.len() == n,
                nonce@ == nonce_bytes(),
                i <= n,
                payload@.len() == i,
                forall|k: int|
                    0 <= k < i ==> (#[trigger] sender_keys(
                        their_public@[k],
                        self.publics()[k],
                        self.secrets()[k],
                    )) is Some,
                forall|k: int|
                    0 <= k < i ==> seals(
                        sender_keys(
                            their_public@[k],
                            self.publics()[k],
                            self.secrets()[k],
                        ).unwrap(),
                        self.messages()[k],
                        ((#[trigger] payload@[k])@[0]@, payload@[k]@[1]@),
                    ),
            decreases n - i,
        {
            let their = &their_public.0[i];
            let own = &self.publics.0[i];
            let secret = &self.secrets[i];
            let pair = &self.messages.0[i];
            assert(self.messages()[i as int] == (pair@[0]@, pair@[1]@));
            assert(sealable(self.messages()[i as int].0.len()));
            assert(their@ == their_public@[i as int]);
            assert(own@ == self.publics()[i as int]);
            assert(secret@ == self.secrets()[i as int]);
            let ghost keys = sender_keys(
                their_public@[i as int],
                self.publics()[i as int],
                self.secrets()[i as int],
            );
            let shared = match point_mul(their, secret) {
                Some(p) => p,
                None => {
                    assert(keys is None);
                    return Err(OTError::TransportFailure);
                },
            };
            let unmasked = match point_sub(their, own) {
                Some(p) => p,
                None => {
                    assert(keys is None);
                    return Err(OTError::TransportFailure);
                },
            };
            let other = match point_mul(&unmasked, secret) {
                Some(p) => p,
                None => {
                    assert(keys is None);
                    return Err(OTError::TransportFailure);
                },
            };
            assert(keys is Some);
            let k0: Key256 = sha256(shared.as_slice());
            let k1: Key256 = sha256(other.as_slice());
            let e0 = aes_gcm_encrypt(&k0, &nonce, pair[0].as_slice()).unwrap();
            let e1 = aes_gcm_encrypt(&k1, &nonce, pair[1].as_slice()).unwrap();
            payload.push([e0, e1]);
            i += 1;
        }
        let payload = EncryptedPayload(payload);
        assert forall|k: int| 0 <= k < n implies #[trigger] payload@[k] == (
            payload.0@[k]@[0]@,
            payload.0@[k]@[1]@,
        ) by {}
        Ok(payload)
    }
}

/// The state of a receiver that has not yet seen the sender's elements.
pub struct Init;

/// The state of a receiver that waits for the ciphertexts.
pub struct RetrievingPayload {
    keys: Vec<Key256>,
    publics: Public,
}

/// The receiving party of a base transfer, in state `S`: first [`Init`],
/// then, once it has accepted the sender's public elements,
/// [`RetrievingPayload`]. Only in the second state can it receive.
pub struct Receiver<S> {
    state: S,
    secrets: Vec<Bytes32>,
    choices: Vec<bool>,
}

impl<S> Receiver<S> {
    /// The secret scalars, one per choice.
    pub closed spec fn secrets(&self) -> Seq<Seq<u8>> {
        array_rows(self.secrets@)
    }

    /// The choices.
    pub closed spec fn choices(&self) -> Seq<bool> {
        self.choices@
    }
}

impl Receiver<Init> {
    /// There is one secret per choice.
    pub open spec fn wf(&self) -> bool {
        self.secrets().len() == self.choices().len()
    }

    /// A receiver for `choices`, with fresh random secrets.
    pub fn new(choices: &[bool]) -> (receiver: Self)
        ensures
            receiver.wf(),
            receiver.choices() == choices@,
    {
        let secrets = random_scalars(choices.len());
        Receiver::with_secrets(choices, secrets)
    }

    /// A receiver for `choices` with the given secrets.
    pub fn with_secrets(choices: &[bool], secrets: Vec<Bytes32>) -> (receiver: Self)
        requires
            secrets@.len() == choices@.len(),
        ensures
            receiver.wf(),
            receiver.choices() == choices@,
            receiver.secrets() == array_rows(secrets@),
    {
        Receiver { state: Init, secrets, choices: copy_choices(choices) }
    }

    /// Takes the sender's public elements and derives, for each transfer,
    /// this party's public element and its key. Fails where the sender sent
    /// another number of elements than there are choices, or an element
    /// that is no point of the curve.
    pub fn accept(&self, their_publics: &Public) -> (r: Result<
        Receiver<RetrievingPayload>,
        OTError,
    >)
        requires
            self.wf(),
        ensures
            r is Ok <==> their_publics@.len() == self.choices().len() && forall|i: int|
                0 <= i < self.choices().len() ==> (#[trigger] receiver_key(
                    their_publics@[i],
                    self.secrets()[i],
                )) is Some && receiver_public(
                    their_publics@[i],
                    self.secrets()[i],
                    self.choices()[i],
                ) is Some,
            r matches Ok(next) ==> next.wf() && next.choices() == self.choices()
                && next.secrets() == self.secrets() && forall|i: int|
                0 <= i < self.choices().len() ==> #[trigger] next.keys()[i] == receiver_key(
                    their_publics@[i],
                    self.secrets()[i],
                ).unwrap() && next.publics()[i] == receiver_public(
                    their_publics@[i],
                    self.secrets()[i],
                    self.choices()[i],
                ).unwrap(),
            r matches Err(e) ==> e == OTError::TransportFailure,
    {
        let n = self.choices.len();
        if their_publics.0.len() != n {
            return Err(OTError::TransportFailure);
        }
        let mut publics: Vec<Bytes32> = Vec::with_capacity(n);
        let mut keys: Vec<Key256> = Vec::with_capacity(n);
        let mut i: usize = 0;
        while i < n
            invariant
                self.wf(),
                n == self.choices().len(),
                their_publics@.len() == n,
                i <= n,
                publics@.len() == i,
                keys@.len() == i,
                forall|k: int|
                    0 <= k < i ==> (#[trigger] receiver_key(
                        their_publics@[k],
                        self.secrets()[k],
                    )) is Some && receiver_public(
                        their_publics@[k],
                        self.secrets()[k],
                        self.choices()[k],
                    ) is Some,
                forall|k: int|
                    0 <= k < i ==> (#[trigger] keys@[k])@ == receiver_key(
                        their_publics@[k],
                        self.secrets()[k],
                    ).unwrap(),
                forall|k: int|
                    0 <= k < i ==> (#[trigger] publics@[k])@ == receiver_public(
                        their_publics@[k],
                        self.secrets()[k],
                        self.choices()[k],
                    ).unwrap(),
            decreases n - i,
        {
            let their = &their_publics.0[i];
            let secret = &self.secrets[i];
            assert(their@ == their_publics@[i as int]);
            assert(secret@ == self.secrets()[i as int]);
            let ghost key = receiver_key(their_publics@[i as int], self.secrets()[i as int]);
            let ghost element = receiver_public(
                their_publics@[i as int],
                self.secrets()[i as int],
                self.choices()[i as int],
            );
            let mine = base_mul(secret);
            let public = if self.choices[i] {
                match point_add(their, &mine) {
                    Some(p) => p,
                    None => {
                        assert(key is Some && element is Some ==> false);
                        return Err(OTError::TransportFailure);
                    },
                }
            } else {
                mine
            };
            let shared = match point_mul(their, secret) {
                Some(p) => p,
                None => {
                    assert(key is Some && element is Some ==> false);
                    return Err(OTError::TransportFailure);
                },
            };
            assert(key is Some && element is Some);
            keys.push(sha256(shared.as_slice()));
            publics.push(public);
            i += 1;
        }
        let next = Receiver {
            state: RetrievingPayload { keys, publics: Public(publics) },
            secrets: copy_arrays(&self.secrets),
            choices: copy_choices(self.choices.as_slice()),
        };
        assert forall|k: int| 0 <= k < n implies #[trigger] next.keys()[k] == receiver_key(
            their_publics@[k],
            self.secrets()[k],
        ).unwrap() && next.publics()[k] == receiver_public(
            their_publics@[k],
            self.secrets()[k],
            self.choices()[k],
        ).unwrap() by {
            assert(next.keys()[k] == keys@[k]@);
            assert(next.publics()[k] == publics@[k]@);
        }
        Ok(next)
    }
}

impl Receiver<RetrievingPayload> {
    /// The keys, one per choice.
    pub closed spec fn keys(&self) -> Seq<Seq<u8>> {
        array_rows(self.state.keys@)
    }

    /// This party's public elements, one per choice.
    pub closed spec fn publics(&self) -> Seq<Seq<u8>> {
        self.state.publics@
    }

    /// There is one secret, one key and one public element per choice.
    pub open spec fn wf(&self) -> bool {
        &&& self.secrets().len() == self.choices().len()
        &&& self.keys().len() == self.choices().len()
        &&& self.publics().len() == self.choices().len()
    }

    /// The public elements to send to the sender.
    pub fn public(&self) -> (publics: Public)
        ensures
            publics@ == self.publics(),
    {
        self.state.publics.clone()
    }

    /// Decrypts, of each pair of ciphertexts, the one that the choice
    /// selects. Fails with `TransportFailure` where there is another
    /// number of pairs than of choices, and with `DecodeFailure` where a
    /// selected ciphertext is too long for the cipher or does not decrypt.
    pub fn receive(&self, payload: &EncryptedPayload) -> (r: Result<Vec<Vec<u8>>, OTError>)
        requires
            self.wf(),
        ensures
            r is Ok <==> payload@.len() == self.choices().len() && forall|i: int|
                0 <= i < self.choices().len() ==> (#[trigger] opened(
                    self.keys()[i],
                    chosen(payload@[i], self.choices()[i]),
                )) is Some,
            r matches Ok(messages) ==> messages@.len() == self.choices().len() && forall|i: int|
                0 <= i < self.choices().len() ==> Some((#[trigger] messages@[i])@) == opened(
                    self.keys()[i],
                    chosen(payload@[i], self.choices()[i]),
                ),
            r matches Err(e) ==> e == (if payload@.len() != self.choices().len() {
                OTError::TransportFailure
            } else {
                OTError::DecodeFailure
            }),
    {
        let n = self.choices.len();
        if payload.0.len() != n {
            return Err(OTError::TransportFailure);
        }
        let mut messages: Vec<Vec<u8>> = Vec::with_capacity(n);
        let mut i: usize = 0;
        while i < n
            invariant
                self.wf(),
                n == self.choices().len(),
                payload@.len() == n,
                i <= n,
                messages@.len() == i,
                forall|k: int|
                    0 <= k < i ==> Some((#[trigger] messages@[k])@) == opened(
                        self.keys()[k],
                        chosen(payload@[k], self.choices()[k]),
                    ),
            decreases n - i,
        {
            let pair = &payload.0[i];
            assert(payload@[i as int] == (pair@[0]@, pair@[1]@));
            let ciphertext = if self.choices[i] {
                &pair[1]
            } else {
                &pair[0]
            };
            assert(ciphertext@ == chosen(payload@[i as int], self.choices()[i as int]));
            match open(&self.state.keys[i], ciphertext.as_slice()) {
                Some(m) => {
                    messages.push(m);
                },
                None => {
                    assert(opened(
                        self.keys()[i as int],
                        chosen(payload@[i as int], self.choices()[i as int]),
                    ) is None);
                    return Err(OTError::DecodeFailure);
                },
            }
            i += 1;
        }
        assert forall|k: int| 0 <= k < n implies (#[trigger] opened(
            self.keys()[k],
            chosen(payload@[k], self.choices()[k]),
        )) is Some by {
            assert(Some(messages@[k]@) == opened(
                self.keys()[k],
                chosen(payload@[k], self.choices()[k]),
            ));
        }
        Ok(messages)
    }
}

/// The identities of the group that the protocol rests on, for the
/// secrets `a` of the sender and `b` of the receiver. With `A = a G`:
/// the Diffie-Hellman identity `a (b G) == b (a G)`; for the choice
/// `true`, that taking `A` off `A + b G` gives `b G` back; and that the
/// elements the parties hand to each other are points of the curve.
pub open spec fn group_identities(a: Seq<u8>, b: Seq<u8>, choice: bool) -> bool {
    let own = ed25519_base_mul(a);
    let theirs = ed25519_base_mul(b);
    &&& ed25519_mul(theirs, a) is Some
    &&& ed25519_mul(theirs, a) == ed25519_mul(own, b)
    &&& if choice {
        ed25519_add(own, theirs) matches Some(masked) && ed25519_sub(masked, own) == Some(theirs)
            && ed25519_mul(masked, a) is Some
    } else {
        ed25519_sub(theirs, own) matches Some(unmasked) && ed25519_mul(unmasked, a) is Some
    }
}

/// Whether a transfer with the secrets `a` and `b` gives the receiver the
/// key under which the sender encrypts the message that `choice` selects.
pub open spec fn keys_agree(a: Seq<u8>, b: Seq<u8>, choice: bool) -> bool {
    let own = ed25519_base_mul(a);
    match receiver_public(own, b, choice) {
        Some(theirs) => match (sender_keys(theirs, own, a), receiver_key(own, b)) {
            (Some(keys), Some(key)) => chosen(keys, choice) == key,
            _ => false,
        },
        None => false,
    }
}

/// Where the identities of the group hold for the secrets of a transfer,
/// the receiver derives the key of the message it chose.
pub proof fn lemma_keys_agree(a: Seq<u8>, b: Seq<u8>, choice: bool)
    requires
        group_identities(a, b, choice),
    ensures
        keys_agree(a, b, choice),
{
}

/// A base transfer between two honest parties gives the receiver the
/// message it chose.
///
/// The sender holds the secret `a` and the pair of messages `pair`, the
/// receiver the secret `b` and the choice `choice`, and `sealed` is what
/// the sender makes of `pair` under its keys, as [`Sender::accept`] does.
/// Where the identities of the group hold for `a` and `b`, the ciphertext
/// that the receiver selects opens under the receiver's key to the
/// message that `choice` selects.
pub proof fn lemma_base_transfer_delivers(
    pair: (Seq<u8>, Seq<u8>),
    choice: bool,
    a: Seq<u8>,
    b: Seq<u8>,
    sealed: (Seq<u8>, Seq<u8>),
)
    requires
        group_identities(a, b, choice),
        ({
            let own = ed25519_base_mul(a);
            let theirs = receiver_public(own, b, choice).unwrap();
            seals(sender_keys(theirs, own, a).unwrap(), pair, sealed)
        }),
    ensures
        ({
            let own = ed25519_base_mul(a);
            let theirs = receiver_public(own, b, choice).unwrap();
            &&& receiver_public(own, b, choice) is Some
            &&& sender_keys(theirs, own, a) is Some
            &&& receiver_key(own, b) is Some
            &&& opened(receiver_key(own, b).unwrap(), chosen(sealed, choice)) == Some(
                chosen(pair, choice),
            )
        }),
{
    lemma_keys_agree(a, b, choice);
}

} // verus!
