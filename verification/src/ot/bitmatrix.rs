//! Bit-packed vectors and matrices.
//!
//! A [`BitVector`] is a fixed sequence of bits stored in 64-bit words; its
//! view is the sequence of its bits. A [`BitMatrix`] is a sequence of rows;
//! its view is the sequence of the rows' views.

use bitvec::order::Lsb0;
use bitvec::vec::BitVec;
use vstd::prelude::*;
use vstd::std_specs::cmp::PartialEqSpecImpl;

verus! {

/// The storage word behind a [`BitVector`].
pub type Block = u64;

/// Number of bits in one [`Block`].
pub const BLOCK_SIZE: usize = 64;

/// The largest number of bits that one vector can hold.
pub open spec fn max_bits() -> int {
    usize::MAX as int / 8
}

/// Bit `p` of the word `w`, counted from the least significant end.
pub open spec fn word_bit(w: u64, p: int) -> bool {
    (w >> (p as u64)) & 1 == 1
}

/// Bit `p` of the byte `b`, counted from the least significant end.
pub open spec fn byte_bit(b: u8, p: int) -> bool {
    (b >> (p as u8)) & 1 == 1
}

/// The bits of a sequence of words: word after word, each from its least
/// significant bit up.
pub open spec fn words_to_bits(words: Seq<u64>) -> Seq<bool> {
    Seq::new(words.len() * 64, |i: int| word_bit(words[i / 64], i % 64))
}

/// The bits of a sequence of bytes: byte after byte, each from its least
/// significant bit up.
pub open spec fn bytes_to_bits(bytes: Seq<u8>) -> Seq<bool> {
    Seq::new(bytes.len() * 8, |i: int| byte_bit(bytes[i / 8], i % 8))
}

/// The byte whose bits `0 .. upto` are the bits `base .. base + upto` of
/// `bits`, and whose other bits are clear.
pub open spec fn packed_byte(bits: Seq<bool>, base: int, upto: nat) -> u8
    decreases upto,
{
    if upto == 0 {
        0u8
    } else {
        let lower = packed_byte(bits, base, (upto - 1) as nat);
        if bits[base + upto - 1] {
            lower | (1u8 << ((upto - 1) as u8))
        } else {
            lower
        }
    }
}

/// The bytes that hold `bits`: byte `j` holds the bits `8 j .. 8 j + 8`,
/// the first of them in its least significant place.
pub open spec fn bits_to_bytes(bits: Seq<bool>) -> Seq<u8> {
    Seq::new(bits.len() / 8, |j: int| packed_byte(bits, 8 * j, 8))
}

/// `len` copies of `bit`.
pub open spec fn constant_bits(len: nat, bit: bool) -> Seq<bool> {
    Seq::new(len, |i: int| bit)
}

/// Bit-wise exclusive or of two sequences; the result is as long as `a`.
pub open spec fn xor_bits(a: Seq<bool>, b: Seq<bool>) -> Seq<bool> {
    Seq::new(a.len(), |i: int| a[i] != b[i])
}

/// Bit-wise and of two sequences; the result is as long as `a`.
pub open spec fn and_bits(a: Seq<bool>, b: Seq<bool>) -> Seq<bool> {
    Seq::new(a.len(), |i: int| a[i] && b[i])
}

/// `dst` with `src` xored in from position `at` on.
pub open spec fn xor_bits_at(dst: Seq<bool>, at: int, src: Seq<bool>) -> Seq<bool> {
    Seq::new(
        dst.len(),
        |i: int|
            if at <= i < at + src.len() {
                dst[i] != src[i - at]
            } else {
                dst[i]
            },
    )
}

/// A packed vector of bits: a `BitVec` of 64-bit words that counts the bits
/// of each word from the least significant up. What it holds is known by
/// the name [`bit_contents`] alone, and through the functions below that
/// call into `bitvec`.
#[derive(Debug)]
#[verifier::external_body]
pub struct BitVector(BitVec<Block, Lsb0>);

/// The bits that a vector holds, in index order.
pub uninterp spec fn bit_contents(v: BitVector) -> Seq<bool>;

impl View for BitVector {
    type V = Seq<bool>;

    open spec fn view(&self) -> Seq<bool> {
        bit_contents(*self)
    }
}

impl Clone for BitVector {
    /// `BitVec::clone`: the copy holds the same bits.
    #[verifier::external_body]
    fn clone(&self) -> (copy: Self)
        ensures
            bit_contents(copy) == bit_contents(*self),
    {
        BitVector(self.0.clone())
    }
}

impl PartialEq for BitVector {
    fn eq(&self, other: &Self) -> (r: bool) {
        self.same_bits(other)
    }
}

impl PartialEqSpecImpl for BitVector {
    open spec fn obeys_eq_spec() -> bool {
        true
    }

    open spec fn eq_spec(&self, other: &Self) -> bool {
        self@ == other@
    }
}

impl Eq for BitVector {

}

impl BitVector {
    /// `BitVec::from_vec`: the vector spans every bit of `vec`, word after
    /// word, each word from its least significant bit up. The outside
    /// function panics when `vec` holds more bits than a vector can.
    #[verifier::external_body]
    pub fn from_vec(vec: Vec<Block>) -> (v: Self)
        requires
            vec@.len() * 64 <= max_bits(),
        ensures
            bit_contents(v) == words_to_bits(vec@),
    {
        BitVector(BitVec::from_vec(vec))
    }

    /// `BitVec::len`: the number of bits held, which is never above the
    /// largest number of bits that a `BitVec` can hold.
    #[verifier::external_body]
    pub fn len(&self) -> (n: usize)
        ensures
            n == bit_contents(*self).len(),
            n <= max_bits(),
    {
        self.0.len()
    }

    /// `BitVec::with_capacity`: an empty vector with room for `capacity`
    /// bits. The outside function panics on a capacity above the maximum.
    #[verifier::external_body]
    fn with_capacity(capacity: usize) -> (v: Self)
        requires
            capacity <= max_bits(),
        ensures
            bit_contents(v) == Seq::<bool>::empty(),
    {
        BitVector(BitVec::with_capacity(capacity))
    }

    /// `BitVec::push`: appends one bit. The outside function panics when the
    /// vector is at its maximum length.
    #[verifier::external_body]
    fn push(&mut self, bit: bool)
        requires
            bit_contents(*old(self)).len() < max_bits(),
        ensures
            bit_contents(*final(self)) == bit_contents(*old(self)).push(bit),
    {
        self.0.push(bit)
    }

    /// Indexing a `BitVec` by position: the bit at `index`. The outside
    /// function panics on an index past the end.
    #[verifier::external_body]
    pub fn index(&self, index: usize) -> (bit: bool)
        requires
            index < bit_contents(*self).len(),
        ensures
            bit == bit_contents(*self)[index as int],
    {
        self.0[index]
    }

    /// `^=` between two bit-slices of equal length, the left one being the
    /// bits `start..end` of `self` and the right one the first `count` bits
    /// of `src`: each bit of the left slice is xored with the bit of the
    /// right slice at the same offset; the bits outside `start..end` stay.
    #[verifier::external_body]
    fn xor_range(&mut self, start: usize, end: usize, src: &BitVector, count: usize)
        requires
            start <= end <= bit_contents(*old(self)).len(),
            count <= bit_contents(*src).len(),
            end - start == count,
        ensures
            bit_contents(*final(self)) == xor_bits_at(
                bit_contents(*old(self)),
                start as int,
                bit_contents(*src).take(count as int),
            ),
    {
        self.0[start..end] ^= &src.0[..count];
    }

    /// `&=` between two vectors of equal length: each bit of `self` is
    /// anded with the bit of `rhs` at the same index.
    #[verifier::external_body]
    fn and_with(&mut self, rhs: &BitVector)
        requires
            bit_contents(*old(self)).len() == bit_contents(*rhs).len(),
        ensures
            bit_contents(*final(self)) == and_bits(bit_contents(*old(self)), bit_contents(*rhs)),
    {
        self.0 &= &rhs.0;
    }

    /// `==` between two `BitVec`s: equal lengths and equal bits.
    #[verifier::external_body]
    fn same_bits(&self, other: &BitVector) -> (r: bool)
        ensures
            r == (bit_contents(*self) == bit_contents(*other)),
    {
        self.0 == other.0
    }

    /// The vector that holds the bits of `bits`, in order.
    pub fn from_bits(bits: &[bool]) -> (v: Self)
        requires
            bits@.len() <= max_bits(),
        ensures
            v@ == bits@,
    {
        let n = bits.len();
        let mut v = BitVector::with_capacity(n);
        let mut i: usize = 0;
        while i < n
            invariant
                n == bits@.len(),
                n <= max_bits(),
                i <= n,
                v@ == bits@.take(i as int),
            decreases n - i,
        {
            v.push(bits[i]);
            assert(bits@.take(i as int).push(bits@[i as int]) =~= bits@.take(i + 1));
            i += 1;
        }
        assert(bits@.take(n as int) =~= bits@);
        v
    }

    /// Whether the vector holds no bit.
    pub fn is_empty(&self) -> (r: bool)
        ensures
            r == (self@.len() == 0),
    {
        self.len() == 0
    }

    /// The vector whose bits are those of `vec`, byte after byte, each byte
    /// from its least significant bit up. The bytes must fill whole words.
    pub fn from_bytes(vec: Vec<u8>) -> (v: Self)
        requires
            vec@.len() % 8 == 0,
            vec@.len() * 8 <= max_bits(),
        ensures
            v@ == bytes_to_bits(vec@),
    {
        let n: usize = vec.len() / 8;
        let mut words: Vec<Block> = Vec::with_capacity(n);
        let mut i: usize = 0;
        while i < n
            invariant
                n * 8 == vec@.len() <= usize::MAX,
                i <= n,
                words@.len() == i,
                forall|k: int|
                    0 <= k < i * 64 ==> word_bit(#[trigger] words@[k / 64], k % 64) == byte_bit(
                        vec@[k / 8],
                        k % 8,
                    ),
            decreases n - i,
        {
            let base: usize = i * 8;
            let w: u64 = word_of_bytes(
                vec[base],
                vec[base + 1],
                vec[base + 2],
                vec[base + 3],
                vec[base + 4],
                vec[base + 5],
                vec[base + 6],
                vec[base + 7],
            );
            proof {
                let old_words = words@;
                assert forall|k: int| 0 <= k < (i + 1) * 64 implies word_bit(
                    #[trigger] old_words.push(w)[k / 64],
                    k % 64,
                ) == byte_bit(vec@[k / 8], k % 8) by {
                    if k >= i * 64 {
                        let p = k - i * 64;
                        assert(k / 64 == i as int);
                        assert(k % 64 == p);
                        assert(k / 8 == base + p / 8);
                        assert(k % 8 == p % 8);
                        assert(old_words.push(w)[k / 64] == w);
                        assert(word_bit(w, p) == byte_bit(vec@[base + p / 8], p % 8));
                    } else {
                        assert(k / 64 < i);
                        assert(old_words.push(w)[k / 64] == old_words[k / 64]);
                    }
                }
            }
            words.push(w);
            i += 1;
        }
        let v = BitVector::from_vec(words);
        assert(v@ =~= bytes_to_bits(vec@)) by {
            assert(v@.len() == vec@.len() * 8);
            assert forall|k: int| 0 <= k < v@.len() implies v@[k] == bytes_to_bits(vec@)[k] by {
                assert(v@[k] == word_bit(words@[k / 64], k % 64));
            }
        }
        v
    }

    /// The vector of `size / 8` zero bytes.
    pub fn zeros(size: usize) -> (v: Self)
        requires
            (size / 8) % 8 == 0,
            size <= max_bits(),
        ensures
            v@ == constant_bits((size / 8 * 8) as nat, false),
    {
        let bytes: Vec<u8> = filled_bytes(size / 8, 0x00u8);
        let v = BitVector::from_bytes(bytes);
        assert(v@ =~= constant_bits((size / 8 * 8) as nat, false)) by {
            assert forall|k: int| 0 <= k < v@.len() implies v@[k] == false by {
                lemma_constant_byte_bits(k % 8);
            }
        }
        v
    }

    /// The vector of `size / 8` bytes with every bit set.
    pub fn ones(size: usize) -> (v: Self)
        requires
            (size / 8) % 8 == 0,
            size <= max_bits(),
        ensures
            v@ == constant_bits((size / 8 * 8) as nat, true),
    {
        let bytes: Vec<u8> = filled_bytes(size / 8, 0xFFu8);
        let v = BitVector::from_bytes(bytes);
        assert(v@ =~= constant_bits((size / 8 * 8) as nat, true)) by {
            assert forall|k: int| 0 <= k < v@.len() implies v@[k] == true by {
                lemma_constant_byte_bits(k % 8);
            }
        }
        v
    }

    /// The bits as bytes: byte `j` holds the bits `8 j .. 8 j + 8`, the
    /// first of them in its least significant place. The length must be a
    /// whole number of bytes.
    pub fn as_bytes(&self) -> (bytes: Vec<u8>)
        requires
            self@.len() % 8 == 0,
        ensures
            bytes@ == bits_to_bytes(self@),
            bytes_to_bits(bytes@) == self@,
    {
        let n: usize = self.len() / 8;
        let mut bytes: Vec<u8> = Vec::with_capacity(n);
        let mut j: usize = 0;
        while j < n
            invariant
                n * 8 == self@.len() <= usize::MAX,
                j <= n,
                bytes@.len() == j,
                forall|k: int| 0 <= k < j ==> bytes@[k] == packed_byte(self@, 8 * k, 8),
                forall|k: int|
                    0 <= k < j * 8 ==> byte_bit(#[trigger] bytes@[k / 8], k % 8) == self@[k],
            decreases n - j,
        {
            let base: usize = j * 8;
            let mut b: u8 = 0;
            let mut p: u8 = 0;
            proof {
                lemma_zero_byte_bits();
            }
            while p < 8
                invariant
                    base == j * 8,
                    base + 8 <= self@.len(),
                    p <= 8,
                    b == packed_byte(self@, base as int, p as nat),
                    forall|q: int| 0 <= q < p ==> byte_bit(b, q) == self@[base + q],
                    forall|q: int| p <= q < 8 ==> !byte_bit(b, q),
                decreases 8 - p,
            {
                let bit = self.index(base + p as usize);
                let ghost before = b;
                if bit {
                    b = b | (1u8 << p);
                }
                proof {
                    lemma_set_byte_bit(before, p);
                    assert forall|q: int| 0 <= q < p + 1 implies byte_bit(b, q) == self@[base + q] by {
                        if q < p {
                            assert(byte_bit(before, q) == self@[base + q]);
                        } else {
                            assert(!byte_bit(before, p as int));
                        }
                    }
                    assert forall|q: int| p + 1 <= q < 8 implies !byte_bit(b, q) by {
                        assert(!byte_bit(before, q));
                    }
                }
                p += 1;
            }
            proof {
                let old_bytes = bytes@;
                assert forall|k: int| 0 <= k < (j + 1) * 8 implies byte_bit(
                    #[trigger] old_bytes.push(b)[k / 8],
                    k % 8,
                ) == self@[k] by {
                    if k >= j * 8 {
                        assert(k / 8 == j as int);
                        assert(k == base + k % 8);
                    } else {
                        assert(k / 8 < j);
                        assert(old_bytes.push(b)[k / 8] == old_bytes[k / 8]);
                    }
                }
            }
            bytes.push(b);
            j += 1;
        }
        assert(bytes_to_bits(bytes@) =~= self@);
        assert(bytes@ =~= bits_to_bytes(self@));
        bytes
    }

    /// Bit-wise exclusive or of two vectors of equal length.
    pub fn bitxor(self, rhs: Self) -> (v: Self)
        requires
            self@.len() == rhs@.len(),
        ensures
            v@ == xor_bits(self@, rhs@),
    {
        let mut v = self;
        v.bitxor_assign(&rhs);
        v
    }

    /// Bit-wise and of two vectors of equal length.
    pub fn bitand(self, rhs: Self) -> (v: Self)
        requires
            self@.len() == rhs@.len(),
        ensures
            v@ == and_bits(self@, rhs@),
    {
        let mut v = self;
        v.bitand_assign(&rhs);
        v
    }

    /// Xors `rhs` into `self`; both have the same length.
    pub fn bitxor_assign(&mut self, rhs: &Self)
        requires
            old(self)@.len() == rhs@.len(),
        ensures
            final(self)@ == xor_bits(old(self)@, rhs@),
    {
        let n = self.len();
        self.xor_range(0, n, rhs, n);
        assert(self@ =~= xor_bits(old(self)@, rhs@));
    }

    /// Ands `rhs` into `self`; both have the same length.
    pub fn bitand_assign(&mut self, rhs: &Self)
        requires
            old(self)@.len() == rhs@.len(),
        ensures
            final(self)@ == and_bits(old(self)@, rhs@),
    {
        self.and_with(rhs);
    }

    /// Xors `src`, moved up by `shift` places and cut off at the length of
    /// `self`, into `self`.
    pub fn xor_shifted(&mut self, src: &Self, shift: usize)
        requires
            old(self)@.len() == src@.len(),
            shift <= src@.len(),
        ensures
            final(self)@ == xor_bits_at(
                old(self)@,
                shift as int,
                src@.take(src@.len() - shift),
            ),
    {
        let n = self.len();
        self.xor_range(shift, n, src, n - shift);
    }
}

/// The word whose bytes, from the least significant up, are `b0` to `b7`.
fn word_of_bytes(b0: u8, b1: u8, b2: u8, b3: u8, b4: u8, b5: u8, b6: u8, b7: u8) -> (w: u64)
    ensures
        forall|p: int|
            0 <= p < 64 ==> #[trigger] word_bit(w, p) == byte_bit(
                if p < 8 {
                    b0
                } else if p < 16 {
                    b1
                } else if p < 24 {
                    b2
                } else if p < 32 {
                    b3
                } else if p < 40 {
                    b4
                } else if p < 48 {
                    b5
                } else if p < 56 {
                    b6
                } else {
                    b7
                },
                p % 8,
            ),
{
    let w: u64 = (b0 as u64) | ((b1 as u64) << 8) | ((b2 as u64) << 16) | ((b3 as u64) << 24) | ((
    b4 as u64) << 32) | ((b5 as u64) << 40) | ((b6 as u64) << 48) | ((b7 as u64) << 56);
    proof {
        assert forall|p: int| 0 <= p < 64 implies #[trigger] word_bit(w, p) == byte_bit(
            if p < 8 {
                b0
            } else if p < 16 {
                b1
            } else if p < 24 {
                b2
            } else if p < 32 {
                b3
            } else if p < 40 {
                b4
            } else if p < 48 {
                b5
            } else if p < 56 {
                b6
            } else {
                b7
            },
            p % 8,
        ) by {
            lemma_word_of_bytes_bit(b0, b1, b2, b3, b4, b5, b6, b7, p as u64);
        }
    }
    w
}

proof fn lemma_word_of_bytes_bit(
    b0: u8,
    b1: u8,
    b2: u8,
    b3: u8,
    b4: u8,
    b5: u8,
    b6: u8,
    b7: u8,
    p: u64,
)
    by (bit_vector)
    requires
        p < 64,
    ensures
        ({
            let w: u64 = (b0 as u64) | ((b1 as u64) << 8) | ((b2 as u64) << 16) | ((b3 as u64)
                << 24) | ((b4 as u64) << 32) | ((b5 as u64) << 40) | ((b6 as u64) << 48) | ((
            b7 as u64) << 56);
            let b: u8 = if p < 8 {
                b0
            } else if p < 16 {
                b1
            } else if p < 24 {
                b2
            } else if p < 32 {
                b3
            } else if p < 40 {
                b4
            } else if p < 48 {
                b5
            } else if p < 56 {
                b6
            } else {
                b7
            };
            ((w >> p) & 1 == 1) == ((b >> ((p % 8) as u8)) & 1 == 1)
        }),
{
}

/// A vector of `n` bytes, each equal to `b`.
fn filled_bytes(n: usize, b: u8) -> (bytes: Vec<u8>)
    ensures
        bytes@.len() == n,
        forall|i: int| 0 <= i < n ==> bytes@[i] == b,
{
    let mut bytes: Vec<u8> = Vec::with_capacity(n);
    let mut i: usize = 0;
    while i < n
        invariant
            i <= n,
            bytes@.len() == i,
            forall|k: int| 0 <= k < i ==> bytes@[k] == b,
        decreases n - i,
    {
        bytes.push(b);
        i += 1;
    }
    bytes
}

proof fn lemma_constant_byte_bits(p: int)
    requires
        0 <= p < 8,
    ensures
        !byte_bit(0x00u8, p),
        byte_bit(0xFFu8, p),
{
    let q = p as u8;
    assert(q < 8 ==> (0x00u8 >> q) & 1 == 0 && (0xFFu8 >> q) & 1 == 1) by (bit_vector);
}

proof fn lemma_zero_byte_bits()
    ensures
        forall|q: int| 0 <= q < 8 ==> !byte_bit(0u8, q),
{
    assert forall|q: int| 0 <= q < 8 implies !byte_bit(0u8, q) by {
        lemma_constant_byte_bits(q);
    }
}

/// Setting bit `p` of a byte sets that bit and leaves the others.
proof fn lemma_set_byte_bit(b: u8, p: u8)
    requires
        p < 8,
    ensures
        byte_bit(b | (1u8 << p), p as int),
        forall|q: int| 0 <= q < 8 && q != p ==> byte_bit(b | (1u8 << p), q) == byte_bit(b, q),
{
    assert(p < 8 ==> ((b | (1u8 << p)) >> p) & 1 == 1) by (bit_vector);
    assert forall|q: int| 0 <= q < 8 && q != p implies byte_bit(b | (1u8 << p), q) == byte_bit(
        b,
        q,
    ) by {
        let r = q as u8;
        assert(p < 8 && r < 8 && r != p ==> ((b | (1u8 << p)) >> r) & 1 == (b >> r) & 1)
            by (bit_vector);
    }
}

/// Column `c` of a matrix given by its rows.
pub open spec fn column(m: Seq<Seq<bool>>, c: int) -> Seq<bool> {
    Seq::new(m.len(), |r: int| m[r][c])
}

/// Whether all rows are as long as the first.
pub open spec fn is_rectangular(m: Seq<Seq<bool>>) -> bool {
    forall|r: int| 0 <= r < m.len() ==> (#[trigger] m[r]).len() == m[0].len()
}

/// The matrix whose rows are the columns of `m`.
pub open spec fn transpose_bits(m: Seq<Seq<bool>>) -> Seq<Seq<bool>> {
    Seq::new(m[0].len(), |c: int| column(m, c))
}

/// The views of a sequence of vectors.
pub open spec fn rows_bits(rows: Seq<BitVector>) -> Seq<Seq<bool>> {
    Seq::new(rows.len(), |r: int| rows[r]@)
}

/// A matrix of bits, stored row by row.
#[derive(Debug)]
pub struct BitMatrix {
    rows: Vec<BitVector>,
}

impl View for BitMatrix {
    type V = Seq<Seq<bool>>;

    closed spec fn view(&self) -> Seq<Seq<bool>> {
        rows_bits(self.rows@)
    }
}

impl Clone for BitMatrix {
    fn clone(&self) -> (copy: Self)
        ensures
            copy@ == self@,
    {
        proof {
            use_type_invariant(self);
        }
        let n = self.rows.len();
        let mut rows: Vec<BitVector> = Vec::with_capacity(n);
        let mut i: usize = 0;
        while i < n
            invariant
                n == self.rows@.len(),
                i <= n,
                rows@.len() == i,
                forall|k: int| 0 <= k < i ==> (#[trigger] rows@[k])@ == self.rows@[k]@,
            decreases n - i,
        {
            rows.push(self.rows[i].clone());
            i += 1;
        }
        let copy = BitMatrix { rows };
        assert(copy@ =~= self@);
        copy
    }
}

/// Whether a matrix has `rows` rows of `cols` bits each.
pub open spec fn has_shape(m: Seq<Seq<bool>>, rows: nat, cols: nat) -> bool {
    m.len() == rows && forall|r: int| 0 <= r < m.len() ==> (#[trigger] m[r]).len() == cols
}

impl BitMatrix {
    /// There are no more rows than a vector can hold bits, so that every
    /// column can be a row in turn.
    #[verifier::type_invariant]
    spec fn well_sized(self) -> bool {
        self.rows@.len() <= max_bits()
    }

    /// Whether the matrix has `rows` rows of `cols` bits each.
    pub fn is_shaped(&self, rows: usize, cols: usize) -> (r: bool)
        ensures
            r == has_shape(self@, rows as nat, cols as nat),
    {
        if self.rows.len() != rows {
            return false;
        }
        let mut i: usize = 0;
        while i < rows
            invariant
                rows == self.rows@.len(),
                i <= rows,
                forall|k: int| 0 <= k < i ==> (#[trigger] self@[k]).len() == cols,
            decreases rows - i,
        {
            if self.rows[i].len() != cols {
                assert(self@[i as int].len() != cols);
                return false;
            }
            i += 1;
        }
        true
    }

    /// Whether all rows have the same length.
    pub open spec fn wf(&self) -> bool {
        is_rectangular(self@)
    }

    /// The matrix with the given rows, of which there are no more than a
    /// vector can hold bits.
    pub fn new(rows: Vec<BitVector>) -> (m: BitMatrix)
        requires
            rows@.len() <= max_bits(),
        ensures
            m@ == rows_bits(rows@),
    {
        BitMatrix { rows }
    }

    /// The number of rows, and the length of the first row. Neither is
    /// above the number of bits that a vector can hold.
    pub fn dims(&self) -> (d: (usize, usize))
        requires
            self@.len() >= 1,
        ensures
            d.0 == self@.len(),
            d.1 == self@[0].len(),
            d.0 <= max_bits(),
            d.1 <= max_bits(),
    {
        proof {
            use_type_invariant(self);
        }
        (self.rows.len(), self.rows[0].len())
    }

    /// The number of rows, which is not above the number of bits that a
    /// vector can hold.
    pub fn num_rows(&self) -> (n: usize)
        ensures
            n == self@.len(),
            n <= max_bits(),
    {
        proof {
            use_type_invariant(self);
        }
        self.rows.len()
    }

    /// Row `index`.
    pub fn index(&self, index: usize) -> (row: &BitVector)
        requires
            index < self@.len(),
        ensures
            row@ == self@[index as int],
    {
        &self.rows[index]
    }

    /// The rows, in order.
    pub fn into_rows(self) -> (rows: Vec<BitVector>)
        ensures
            rows_bits(rows@) == self@,
    {
        self.rows
    }

    /// The matrix whose rows are the columns of `self`. Where `self` has a
    /// column, the result can be transposed in turn, and that gives `self`
    /// back.
    pub fn transpose(&self) -> (t: BitMatrix)
        requires
            self.wf(),
            self@.len() >= 1,
        ensures
            t@ == transpose_bits(self@),
            has_shape(t@, self@[0].len(), self@.len()),
            t.wf(),
            self@[0].len() >= 1 ==> t@.len() >= 1 && transpose_bits(t@) == self@,
    {
        proof {
            use_type_invariant(self);
            if self@[0].len() >= 1 {
                lemma_transpose_involution(self@);
            }
        }
        let (rows, cols) = self.dims();
        let mut new_rows: Vec<BitVector> = Vec::with_capacity(cols);
        let mut col: usize = 0;
        while col < cols
            invariant
                self.wf(),
                rows == self@.len(),
                cols == self@[0].len(),
                1 <= rows <= max_bits(),
                col <= cols,
                new_rows@.len() == col,
                forall|c: int| 0 <= c < col ==> (#[trigger] new_rows@[c])@ == column(self@, c),
            decreases cols - col,
        {
            let mut new_row = BitVector::with_capacity(rows);
            let mut row: usize = 0;
            while row < rows
                invariant
                    self.wf(),
                    rows == self@.len(),
                    cols == self@[0].len(),
                    rows <= max_bits(),
                    col < cols,
                    row <= rows,
                    new_row@.len() == row,
                    forall|r: int| 0 <= r < row ==> new_row@[r] == self@[r][col as int],
                decreases rows - row,
            {
                assert(self@[row as int].len() == self@[0].len());
                let bit = self.index(row).index(col);
                new_row.push(bit);
                row += 1;
            }
            assert(new_row@ =~= column(self@, col as int));
            new_rows.push(new_row);
            col += 1;
        }
        let t = BitMatrix::new(new_rows);
        assert(t@ =~= transpose_bits(self@));
        t
    }
}

/// Transposing twice gives the matrix back: for every matrix with at least
/// one row and one column whose rows have one length,
/// `transpose(transpose(m)) == m`.
pub proof fn lemma_transpose_involution(m: Seq<Seq<bool>>)
    requires
        is_rectangular(m),
        m.len() >= 1,
        m[0].len() >= 1,
    ensures
        is_rectangular(transpose_bits(m)),
        transpose_bits(m).len() == m[0].len(),
        transpose_bits(m)[0].len() == m.len(),
        transpose_bits(transpose_bits(m)) == m,
{
    let t = transpose_bits(m);
    let tt = transpose_bits(t);
    assert(t[0] == column(m, 0));
    assert(tt.len() == m.len());
    assert forall|r: int| 0 <= r < m.len() implies tt[r] == m[r] by {
        assert(tt[r] == column(t, r));
        assert(m[r].len() == m[0].len());
        assert(column(t, r) =~= m[r]);
    }
    assert(tt =~= m);
}

} // verus!
