//! The cryptographic primitives under the protocols: a hash, an
//! authenticated cipher, a group in which discrete logarithms are hard, and
//! pseudorandom and random bytes.
//!
//! None of them is computed here. Each result that depends on its
//! arguments alone has a name, and the contracts of the protocols speak of
//! those names.

use aes_gcm::aead::{Aead, NewAead};
use aes_gcm::{Aes256Gcm, Key, Nonce};
use curve25519_dalek::edwards::{CompressedEdwardsY, EdwardsPoint};
use curve25519_dalek::scalar::Scalar;
use rand::{RngCore, SeedableRng};
use rand_chacha::{ChaCha12Rng, ChaCha20Rng};
use sha2::{Digest, Sha256};
use vstd::prelude::*;

verus! {

/// A SHA-256 digest, which is also the size of a cipher key.
pub type Key256 = [u8; 32];

/// The nonce of the cipher.
pub type Nonce96 = [u8; 12];

/// A point of the curve in compressed form, or a scalar in little-endian
/// bytes.
pub type Bytes32 = [u8; 32];

/// The SHA-256 digest of `data`.
pub uninterp spec fn sha256_digest(data: Seq<u8>) -> Seq<u8>;

/// The AES-256-GCM ciphertext of `plaintext`, authentication tag included.
pub uninterp spec fn aes_gcm_seal(key: Seq<u8>, nonce: Seq<u8>, plaintext: Seq<u8>) -> Seq<u8>;

/// The plaintext that AES-256-GCM recovers from `ciphertext`, if the tag
/// holds under `key` and `nonce`.
pub uninterp spec fn aes_gcm_open(key: Seq<u8>, nonce: Seq<u8>, ciphertext: Seq<u8>) -> Option<
    Seq<u8>,
>;

/// The Ed25519 base point times `scalar`, compressed.
pub uninterp spec fn ed25519_base_mul(scalar: Seq<u8>) -> Seq<u8>;

/// The point `point` times `scalar`, compressed; `None` where `point` is no
/// point of the curve.
pub uninterp spec fn ed25519_mul(point: Seq<u8>, scalar: Seq<u8>) -> Option<Seq<u8>>;

/// The sum of two points, compressed; `None` where one of them is no point
/// of the curve.
pub uninterp spec fn ed25519_add(p: Seq<u8>, q: Seq<u8>) -> Option<Seq<u8>>;

/// The difference of two points, compressed; `None` where one of them is
/// no point of the curve.
pub uninterp spec fn ed25519_sub(p: Seq<u8>, q: Seq<u8>) -> Option<Seq<u8>>;

/// The first `len` bytes that the ChaCha20 generator gives from `seed`.
pub uninterp spec fn chacha20_stream(seed: Seq<u8>, len: nat) -> Seq<u8>;

/// Whether the cipher takes a plaintext of `len` bytes: with its tag of 16
/// bytes it stays below 2^36 bytes, where the cipher's block counter of 32
/// bits runs out, and fits in a buffer.
pub open spec fn sealable(len: nat) -> bool {
    len + 16 < 0x10_0000_0000 && len + 16 <= isize::MAX
}

/// Whether the cipher takes a ciphertext of `len` bytes, tag included: it
/// stays below 2^36 bytes, where the cipher's block counter runs out.
pub open spec fn openable(len: nat) -> bool {
    len < 0x10_0000_0000
}

/// The view of an optional array.
pub open spec fn option_view(o: Option<Bytes32>) -> Option<Seq<u8>> {
    match o {
        Some(a) => Some(a@),
        None => None,
    }
}

/// The view of an optional vector.
pub open spec fn option_bytes(o: Option<Vec<u8>>) -> Option<Seq<u8>> {
    match o {
        Some(v) => Some(v@),
        None => None,
    }
}

/// `Sha256::digest`: the SHA-256 digest of `data`.
#[verifier::external_body]
pub(crate) fn sha256(data: &[u8]) -> (digest: Key256)
    ensures
        digest@ == sha256_digest(data@),
{
    Sha256::digest(data).into()
}

/// `Aes256Gcm::encrypt` with no associated data: the ciphertext, which is
/// the plaintext encrypted followed by a tag of 16 bytes, and which
/// `Aes256Gcm::decrypt` under the same key and nonce turns back into
/// `plaintext`. The outside function panics where the plaintext takes the
/// block counter of 32 bits past its end, which is from 2^36 - 16 bytes
/// on, and its buffer holds 16 bytes more than the plaintext.
#[verifier::external_body]
pub(crate) fn aes_gcm_encrypt(key: &Key256, nonce: &Nonce96, plaintext: &[u8]) -> (ciphertext:
    Option<Vec<u8>>)
    requires
        sealable(plaintext@.len()),
    ensures
        option_bytes(ciphertext) == Some(aes_gcm_seal(key@, nonce@, plaintext@)),
        ciphertext matches Some(c) ==> c@.len() == plaintext@.len() + 16,
        ciphertext matches Some(c) ==> aes_gcm_open(key@, nonce@, c@) == Some(plaintext@),
{
    Aes256Gcm::new(Key::from_slice(key)).encrypt(Nonce::from_slice(nonce), plaintext).ok()
}

/// `Aes256Gcm::decrypt` with no associated data: the plaintext, or `None`
/// where the tag does not hold. The outside function panics where the tag
/// holds and the ciphertext takes the block counter of 32 bits past its
/// end, which is from 2^36 bytes on, tag included.
#[verifier::external_body]
pub(crate) fn aes_gcm_decrypt(key: &Key256, nonce: &Nonce96, ciphertext: &[u8]) -> (plaintext:
    Option<Vec<u8>>)
    requires
        openable(ciphertext@.len()),
    ensures
        option_bytes(plaintext) == aes_gcm_open(key@, nonce@, ciphertext@),
{
    Aes256Gcm::new(Key::from_slice(key)).decrypt(Nonce::from_slice(nonce), ciphertext).ok()
}

/// `EdwardsPoint::mul_base` on the scalar that `scalar` is modulo the group
/// order, compressed.
#[verifier::external_body]
pub(crate) fn base_mul(scalar: &Bytes32) -> (point: Bytes32)
    ensures
        point@ == ed25519_base_mul(scalar@),
{
    EdwardsPoint::mul_base(&Scalar::from_bytes_mod_order(*scalar)).compress().to_bytes()
}

/// The product of a decompressed point and the scalar that `scalar` is
/// modulo the group order, compressed; `None` where
/// `CompressedEdwardsY::decompress` finds no point.
#[verifier::external_body]
pub(crate) fn point_mul(point: &Bytes32, scalar: &Bytes32) -> (product: Option<Bytes32>)
    ensures
        option_view(product) == ed25519_mul(point@, scalar@),
{
    let p = CompressedEdwardsY(*point).decompress()?;
    Some((p * Scalar::from_bytes_mod_order(*scalar)).compress().to_bytes())
}

/// The sum of two decompressed points, compressed; `None` where
/// `CompressedEdwardsY::decompress` finds no point for one of them.
#[verifier::external_body]
pub(crate) fn point_add(p: &Bytes32, q: &Bytes32) -> (sum: Option<Bytes32>)
    ensures
        option_view(sum) == ed25519_add(p@, q@),
{
    let a = CompressedEdwardsY(*p).decompress()?;
    let b = CompressedEdwardsY(*q).decompress()?;
    Some((a + b).compress().to_bytes())
}

/// The difference of two decompressed points, compressed; `None` where
/// `CompressedEdwardsY::decompress` finds no point for one of them.
#[verifier::external_body]
pub(crate) fn point_sub(p: &Bytes32, q: &Bytes32) -> (difference: Option<Bytes32>)
    ensures
        option_view(difference) == ed25519_sub(p@, q@),
{
    let a = CompressedEdwardsY(*p).decompress()?;
    let b = CompressedEdwardsY(*q).decompress()?;
    Some((a - b).compress().to_bytes())
}

/// `Scalar::random` on a generator that `ChaCha12Rng::from_entropy` seeds
/// from the operating system: a scalar, in bytes. Nothing is claimed of
/// it. The outside function panics where the system gives no entropy.
#[verifier::external_body]
pub(crate) fn random_scalar() -> Bytes32 {
    Scalar::random(&mut ChaCha12Rng::from_entropy()).to_bytes()
}

/// `ChaCha20Rng::fill_bytes` on the generator that `ChaCha20Rng::from_seed`
/// makes of `seed`: its first `len` bytes. No buffer holds more than
/// `isize::MAX` bytes.
#[verifier::external_body]
pub(crate) fn prg_bytes(seed: &Bytes32, len: usize) -> (out: Vec<u8>)
    requires
        len <= isize::MAX,
    ensures
        out@ == chacha20_stream(seed@, len as nat),
        out@.len() == len,
{
    let mut out = vec![0u8; len];
    ChaCha20Rng::from_seed(*seed).fill_bytes(&mut out);
    out
}

/// `ChaCha20Rng::fill_bytes` on a generator that `ChaCha20Rng::from_entropy`
/// seeds from the operating system: `len` bytes, of which only the number
/// is claimed. The outside function panics where the system gives no
/// entropy.
#[verifier::external_body]
pub(crate) fn random_bytes(len: usize) -> (out: Vec<u8>)
    requires
        len <= isize::MAX,
    ensures
        out@.len() == len,
{
    let mut out = vec![0u8; len];
    ChaCha20Rng::from_entropy().fill_bytes(&mut out);
    out
}

} // verus!
