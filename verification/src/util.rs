//! Small helpers shared by the rest of the crate.

use crate::ot::bitmatrix::{byte_bit, bytes_to_bits};
use crate::ot::primitives::{sha256, sha256_digest};
use rand::Rng;
use vstd::arithmetic::power2::{lemma2_to64, lemma_pow2_unfold, pow2};
use vstd::prelude::*;
use vstd::std_specs::bits::{axiom_u64_leading_zeros, u64_leading_zeros};

verus! {

/// The security parameter, in bits.
pub const SECURITY_PARAM: usize = 256;

/// The security parameter, in bytes.
pub const LENGTH: usize = 32;

/// A string of [`LENGTH`] bytes.
pub type Bytes = [u8; 32];

/// `Rng::gen_range` on the generator that `rand::thread_rng` gives, with
/// the range from 0 up to but not including `max`: a number of that range.
/// The outside function panics on an empty range.
#[verifier::external_body]
pub(crate) fn random_below(max: u64) -> (r: u64)
    requires
        max > 0,
    ensures
        r < max,
{
    rand::thread_rng().gen_range(0..max)
}

/// A random number below `max`.
pub fn rng(max: u16) -> (r: u16)
    requires
        max > 0,
    ensures
        r < max,
{
    random_below(max as u64) as u16
}

/// The number of binary digits of `v`.
pub open spec fn bit_length(v: nat) -> nat
    decreases v,
{
    if v == 0 {
        0
    } else {
        1 + bit_length(v / 2)
    }
}

/// A number is below two to the power of its number of digits, and not
/// below the power before.
pub proof fn lemma_bit_length_bounds(v: nat)
    ensures
        v < pow2(bit_length(v)),
        v > 0 ==> pow2((bit_length(v) - 1) as nat) <= v,
    decreases v,
{
    lemma2_to64();
    if v > 0 {
        lemma_bit_length_bounds(v / 2);
        lemma_pow2_unfold(bit_length(v));
        if v / 2 > 0 {
            lemma_pow2_unfold(bit_length(v / 2));
        }
    }
}

proof fn lemma_leading_zeros_is_bit_length(v: u64)
    ensures
        64 - u64_leading_zeros(v) == bit_length(v as nat),
    decreases v,
{
    reveal(u64_leading_zeros);
    if v != 0 {
        lemma_leading_zeros_is_bit_length(v / 2);
    }
}

/// The logarithm of `x` to the base 2, rounded up: the least `r` with
/// `x <= 2^r`.
pub fn log2(x: u64) -> (r: u32)
    requires
        x >= 1,
    ensures
        r == bit_length((x - 1) as nat),
        x <= pow2(r as nat),
        r > 0 ==> pow2((r - 1) as nat) < x,
{
    proof {
        axiom_u64_leading_zeros((x - 1) as u64);
        lemma_leading_zeros_is_bit_length((x - 1) as u64);
        lemma_bit_length_bounds((x - 1) as nat);
    }
    64 - (x - 1).leading_zeros()
}

/// The bits of `str`: byte after byte, each from its least significant bit
/// up.
pub fn u8_vec_to_bool_vec(str: &[u8]) -> (bits: Vec<bool>)
    requires
        str@.len() * 8 <= usize::MAX,
    ensures
        bits@ == bytes_to_bits(str@),
{
    let mut bits: Vec<bool> = Vec::with_capacity(8 * str.len());
    let mut k: usize = 0;
    while k < str.len()
        invariant
            str@.len() * 8 <= usize::MAX,
            k <= str@.len(),
            bits@.len() == k * 8,
            forall|j: int| 0 <= j < k * 8 ==> bits@[j] == byte_bit(str@[j / 8], j % 8),
        decreases str@.len() - k,
    {
        let s = str[k];
        let mut i: u8 = 0;
        while i < 8
            invariant
                k < str@.len(),
                s == str@[k as int],
                i <= 8,
                bits@.len() == k * 8 + i,
                forall|j: int| 0 <= j < k * 8 + i ==> bits@[j] == byte_bit(str@[j / 8], j % 8),
            decreases 8 - i,
        {
            bits.push((s >> i) & 1 == 1);
            i += 1;
        }
        k += 1;
    }
    assert(bits@ =~= bytes_to_bits(str@));
    bits
}

/// The bytes of `bytes` as an array. There must be [`LENGTH`] of them.
pub fn to_array(bytes: &[u8]) -> (array: Bytes)
    requires
        bytes@.len() == LENGTH,
    ensures
        array@ == bytes@,
{
    let mut array: Bytes = [0u8; 32];
    let mut i: usize = 0;
    while i < 32
        invariant
            bytes@.len() == 32,
            i <= 32,
            forall|k: int| 0 <= k < i ==> array@[k] == bytes@[k],
        decreases 32 - i,
    {
        array[i] = bytes[i];
        i += 1;
    }
    assert(array@ =~= bytes@);
    array
}

/// The eight bytes of `j`, the most significant first.
pub open spec fn be_bytes(j: u64) -> Seq<u8> {
    Seq::new(8, |i: int| ((j >> ((56 - 8 * i) as u64)) & 0xff) as u8)
}

/// The eight bytes of `j`, the most significant first.
pub fn to_be_bytes(j: u64) -> (bytes: Vec<u8>)
    ensures
        bytes@ == be_bytes(j),
{
    let mut bytes: Vec<u8> = Vec::with_capacity(8);
    let mut i: u64 = 0;
    while i < 8
        invariant
            i <= 8,
            bytes@.len() == i,
            forall|k: int| 0 <= k < i ==> bytes@[k] == be_bytes(j)[k],
        decreases 8 - i,
    {
        let shift: u64 = 56 - 8 * i;
        let low: u64 = (j >> shift) & 0xff;
        assert(low <= 0xff) by (bit_vector)
            requires
                low == (j >> shift) & 0xff,
        ;
        bytes.push(low as u8);
        i += 1;
    }
    assert(bytes@ =~= be_bytes(j));
    bytes
}

/// The parts of `parts`, one after the other.
pub open spec fn joined(parts: Seq<Seq<u8>>) -> Seq<u8>
    decreases parts.len(),
{
    if parts.len() == 0 {
        Seq::<u8>::empty()
    } else {
        joined(parts.drop_last()) + parts.last()
    }
}

/// The views of a sequence of slices.
pub open spec fn slice_views(parts: Seq<&[u8]>) -> Seq<Seq<u8>> {
    Seq::new(parts.len(), |i: int| parts[i]@)
}

/// The SHA-256 digest of the parts of `parts`, taken one after the other.
pub fn hash(parts: &[&[u8]]) -> (digest: Bytes)
    ensures
        digest@ == sha256_digest(joined(slice_views(parts@))),
{
    let mut data: Vec<u8> = Vec::new();
    let mut p: usize = 0;
    while p < parts.len()
        invariant
            p <= parts@.len(),
            data@ == joined(slice_views(parts@).take(p as int)),
        decreases parts@.len() - p,
    {
        let part = parts[p];
        let ghost before = data@;
        let mut i: usize = 0;
        while i < part.len()
            invariant
                i <= part@.len(),
                data@ == before + part@.take(i as int),
            decreases part@.len() - i,
        {
            data.push(part[i]);
            assert(part@.take(i as int).push(part@[i as int]) =~= part@.take(i + 1));
            assert(data@ =~= before + part@.take(i + 1));
            i += 1;
        }
        proof {
            let views = slice_views(parts@);
            assert(part@.take(part@.len() as int) =~= part@);
            assert(views.take(p + 1).drop_last() =~= views.take(p as int));
            assert(views.take(p + 1).last() == part@);
        }
        p += 1;
    }
    assert(slice_views(parts@).take(parts@.len() as int) =~= slice_views(parts@));
    sha256(data.as_slice())
}

/// The bit-wise exclusive or of two byte strings.
pub fn xor(a: Bytes, b: Bytes) -> (result: Bytes)
    ensures
        forall|i: int| 0 <= i < LENGTH ==> result@[i] == a@[i] ^ b@[i],
{
    let mut result: Bytes = [0u8; 32];
    let mut i: usize = 0;
    while i < 32
        invariant
            i <= 32,
            forall|k: int| 0 <= k < i ==> result@[k] == a@[k] ^ b@[k],
        decreases 32 - i,
    {
        result[i] = a[i] ^ b[i];
        i += 1;
    }
    result
}

} // verus!
