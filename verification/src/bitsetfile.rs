//! A persisted bit-vector over a sparse, contiguous-from-zero id space.
//!
//! `BitSetFile` holds the exact image of its backing file: a 16-byte header
//! (`size`, then `max_bit`, each 8 little-endian bytes) followed by the
//! bitmap bytes, where bit `n = id % 8` of byte `id / 8` stands for id
//! `8 * (id / 8) + n`. The embedding program reads the image from disk with
//! [`BitSetFile::open`] and writes it back after [`BitSetFile::write_header`].

use vstd::prelude::*;

use crate::bitops::bits_of;
use crate::bitops::byte_bit;
use crate::bitops::byte_ones;
use crate::bitops::count_trues;
use crate::bitops::lemma_andnot_bit;
use crate::bitops::lemma_bits_of_append;
use crate::bitops::lemma_byte_zero;
use crate::bitops::lemma_count_append;
use crate::bitops::lemma_count_one;
use crate::bitops::lemma_count_update;
use crate::bitops::lemma_count_zero;
use crate::bitops::lemma_mask_bits;
use crate::bitops::lemma_mask_test;
use crate::bitops::lemma_or_bit;
use crate::bitops::lemma_shr_bits;
use crate::error::ContainerError;

verus! {

/// Bytes taken by the header: two 8-byte little-endian integers.
pub const HEADER_BYTE_SIZE: u64 = 16;

/// Splits a bit index into the byte offset inside the bitmap region and the
/// mask that selects the bit within that byte.
pub fn bit_map_offset_and_bit_mask(bit: u64) -> (r: (u64, u8))
    ensures
        r.0 == bit / 8,
        r.1 == 1u8 << ((bit % 8) as u8),
        forall|j: u8| j < 8 ==> (byte_bit(r.1, j) <==> j as u64 == bit % 8),
{
    let offset = bit / 8;
    let mask = 1u8 << ((bit % 8) as u8);
    proof {
        assert forall|j: u8| j < 8 implies (byte_bit(mask, j) <==> j as u64 == bit % 8) by {
            lemma_mask_bits((bit % 8) as u8, j);
        }
    }
    (offset, mask)
}

/// The highest id represented by byte `offset` with value `mask`: the top
/// set bit of `mask`, offset by `8 * offset`. When `mask` is zero but the
/// offset is not, the answer falls back to `offset - 1`, and when both are
/// zero there is no id at all.
pub fn max_id_from(offset: u64, mask: u8) -> (r: Option<u64>)
    requires
        offset <= (u64::MAX - 7) / 8,
    ensures
        (r is None) <==> (offset == 0 && mask == 0),
        offset > 0 && mask == 0 ==> r == Some((offset - 1) as u64),
        mask != 0 ==> {
            &&& r is Some
            &&& 8 * offset <= r->0 < 8 * offset + 8
            &&& byte_bit(mask, (r->0 - 8 * offset) as u8)
            &&& forall|j: u8| j < 8 && byte_bit(mask, j) ==> j as u64 <= r->0 - 8 * offset
        },
{
    if offset == 0 && mask == 0 {
        None
    } else if mask == 0 {
        Some(offset - 1)
    } else {
        let base_id = offset * 8;
        let lz = mask.leading_zeros();
        proof {
            vstd::std_specs::bits::axiom_u8_leading_zeros(mask);
            let k = (7 - lz) as u8;
            assert((mask >> k) & 1u8 == 1u8 <==> (mask >> k) & 1u8 != 0u8) by (bit_vector);
            assert forall|j: u8| j < 8 && byte_bit(mask, j) implies j <= k by {
                if j > k {
                    assert((mask >> j) & 1u8 == 0u8 ==> !byte_bit(mask, j));
                }
            }
        }
        let max_bit = 7 - lz;
        Some(base_id + max_bit as u64)
    }
}

/// Bit flags carried by a full file image: everything after the header,
/// one flag per bit.
pub open spec fn image_bits(bytes: Seq<u8>) -> Seq<bool> {
    bits_of(bytes.skip(16))
}

/// Membership of `bit` in a full file image.
pub open spec fn image_has(bytes: Seq<u8>, bit: int) -> bool {
    0 <= bit < image_bits(bytes).len() && image_bits(bytes)[bit]
}

/// The well-formedness tying a file image to its `size` and `max_bit`
/// counters: `size` counts the set bits, and a non-empty set keeps exactly
/// the bytes up to the byte of its highest member.
pub open spec fn wf_parts(bytes: Seq<u8>, size: u64, max_bit: u64) -> bool {
    &&& bytes.len() >= 16
    &&& size == count_trues(image_bits(bytes))
    &&& if size == 0 {
        bytes.len() == 16 && max_bit == 0
    } else {
        &&& bytes.len() == 17 + max_bit as int / 8
        &&& image_has(bytes, max_bit as int)
        &&& forall|b: int| image_has(bytes, b) ==> b <= max_bit
    }
}

/// A file image determines its counters: two well-formed readings of the
/// same bytes agree. With [`BitSetFile::write_header`] ensuring the stored
/// header is one such reading, reopening a flushed image reconstructs
/// exactly the set it was written from.
pub proof fn lemma_wf_parts_unique(bytes: Seq<u8>, size1: u64, max1: u64, size2: u64, max2: u64)
    requires
        wf_parts(bytes, size1, max1),
        wf_parts(bytes, size2, max2),
    ensures
        size1 == size2,
        max1 == max2,
{
    if size1 > 0 {
        assert(image_has(bytes, max1 as int));
        assert(image_has(bytes, max2 as int));
    }
}

/// A file image whose stored header matches its bitmap bytes.
pub open spec fn valid_image(bytes: Seq<u8>) -> bool {
    &&& bytes.len() >= 16
    &&& wf_parts(
        bytes,
        vstd::bytes::spec_u64_from_le_bytes(bytes.subrange(0, 8)),
        vstd::bytes::spec_u64_from_le_bytes(bytes.subrange(8, 16)),
    )
}

/// A persisted set of small non-negative integers, kept as the byte image
/// of its backing file plus the two header counters.
#[derive(Debug)]
pub struct BitSetFile {
    bytes: Vec<u8>,
    max_bit: u64,
    size: u64,
}

impl BitSetFile {
    /// The full file image, header included.
    pub closed spec fn spec_bytes(self) -> Seq<u8> {
        self.bytes@
    }

    /// The count of set bits.
    pub closed spec fn spec_size(self) -> u64 {
        self.size
    }

    /// The highest set bit; meaningful only when the set is non-empty.
    pub closed spec fn spec_max(self) -> u64 {
        self.max_bit
    }

    /// The length of the file image in bytes.
    pub open spec fn spec_len(self) -> nat {
        self.spec_bytes().len()
    }

    /// Membership of `bit` in the set.
    pub open spec fn spec_has(self, bit: int) -> bool {
        image_has(self.spec_bytes(), bit)
    }

    /// The internal invariant every method preserves.
    pub open spec fn wf(self) -> bool {
        wf_parts(self.spec_bytes(), self.spec_size(), self.spec_max())
    }

    /// The image never outgrows the address space.
    pub proof fn lemma_len_bound(self)
        ensures
            self.spec_len() <= usize::MAX,
    {
        vstd::std_specs::vec::axiom_spec_len(&self.bytes);
    }

    /// A fresh, empty set: header-only image, all counters zero.
    pub fn new() -> (r: Self)
        ensures
            r.wf(),
            r.spec_size() == 0,
            r.spec_max() == 0,
            r.spec_bytes() =~= Seq::new(16, |i: int| 0u8),
            forall|b: int| !r.spec_has(b),
    {
        let mut bytes: Vec<u8> = Vec::new();
        let mut i: usize = 0;
        while i < (HEADER_BYTE_SIZE as usize)
            invariant
                i <= 16,
                bytes@ =~= Seq::new(i as nat, |j: int| 0u8),
            decreases 16 - i,
        {
            bytes.push(0);
            i += 1;
        }
        let r = BitSetFile { bytes, max_bit: 0, size: 0 };
        proof {
            assert(r.spec_bytes().skip(16) =~= Seq::<u8>::empty());
        }
        r
    }

    /// Rebuilds a set from an existing file image, taking `size` and
    /// `max_bit` from the stored header; an image shorter than the header
    /// leaves both counters zero, as a fresh file would.
    pub fn open(bytes: Vec<u8>) -> (r: Self)
        ensures
            r.spec_bytes() == bytes@,
            bytes@.len() >= 16 ==> r.spec_size() == vstd::bytes::spec_u64_from_le_bytes(
                bytes@.subrange(0, 8),
            ) && r.spec_max() == vstd::bytes::spec_u64_from_le_bytes(bytes@.subrange(8, 16)),
            bytes@.len() < 16 ==> r.spec_size() == 0 && r.spec_max() == 0,
            valid_image(bytes@) ==> r.wf(),
    {
        let mut bsf = BitSetFile { bytes, max_bit: 0, size: 0 };
        if bsf.bytes.len() >= 16 {
            let (size, max_bit) = bsf.read_header();
            bsf.size = size;
            bsf.max_bit = max_bit;
        }
        bsf
    }

    /// Reads the two stored header counters back from the image.
    pub fn read_header(&self) -> (r: (u64, u64))
        requires
            self.spec_len() >= 16,
        ensures
            r.0 == vstd::bytes::spec_u64_from_le_bytes(self.spec_bytes().subrange(0, 8)),
            r.1 == vstd::bytes::spec_u64_from_le_bytes(self.spec_bytes().subrange(8, 16)),
    {
        let size = vstd::bytes::u64_from_le_bytes(vstd::slice::slice_subrange(
            self.bytes.as_slice(),
            0,
            8,
        ));
        let max_bit = vstd::bytes::u64_from_le_bytes(vstd::slice::slice_subrange(
            self.bytes.as_slice(),
            8,
            16,
        ));
        (size, max_bit)
    }

    /// Rewrites the header bytes of the image from the current counters, so
    /// that a later [`BitSetFile::open`] of the image reconstructs the same
    /// state. Membership, counters and length are untouched.
    pub fn write_header(&mut self)
        requires
            old(self).wf(),
        ensures
            final(self).wf(),
            final(self).spec_size() == old(self).spec_size(),
            final(self).spec_max() == old(self).spec_max(),
            final(self).spec_len() == old(self).spec_len(),
            forall|b: int| final(self).spec_has(b) == old(self).spec_has(b),
            final(self).spec_bytes().skip(16) == old(self).spec_bytes().skip(16),
            valid_image(final(self).spec_bytes()),
    {
        let ghost pre = *old(self);
        let size_bytes = vstd::bytes::u64_to_le_bytes(self.size);
        let max_bytes = vstd::bytes::u64_to_le_bytes(self.max_bit);
        let mut i: usize = 0;
        while i < 8
            invariant
                i <= 8,
                self.size == pre.size,
                self.max_bit == pre.max_bit,
                size_bytes@ == vstd::bytes::spec_u64_to_le_bytes(pre.size),
                max_bytes@ == vstd::bytes::spec_u64_to_le_bytes(pre.max_bit),
                size_bytes@.len() == 8,
                max_bytes@.len() == 8,
                self.bytes@.len() == pre.bytes@.len(),
                pre.bytes@.len() >= 16,
                forall|j: int| 0 <= j < i ==> self.bytes@[j] == size_bytes@[j],
                forall|j: int| i <= j < pre.bytes@.len() ==> self.bytes@[j] == pre.bytes@[j],
            decreases 8 - i,
        {
            self.bytes[i] = size_bytes[i];
            i += 1;
        }
        let mut k: usize = 0;
        while k < 8
            invariant
                k <= 8,
                self.size == pre.size,
                self.max_bit == pre.max_bit,
                size_bytes@ == vstd::bytes::spec_u64_to_le_bytes(pre.size),
                max_bytes@ == vstd::bytes::spec_u64_to_le_bytes(pre.max_bit),
                size_bytes@.len() == 8,
                max_bytes@.len() == 8,
                self.bytes@.len() == pre.bytes@.len(),
                pre.bytes@.len() >= 16,
                forall|j: int| 0 <= j < 8 ==> self.bytes@[j] == size_bytes@[j],
                forall|j: int| 0 <= j < k ==> self.bytes@[8 + j] == max_bytes@[j],
                forall|j: int| 8 + k <= j < pre.bytes@.len() ==> self.bytes@[j] == pre.bytes@[j],
            decreases 8 - k,
        {
            self.bytes[8 + k] = max_bytes[k];
            k += 1;
        }
        proof {
            assert(self.bytes@.skip(16) =~= pre.bytes@.skip(16));
            assert(self.bytes@.subrange(0, 8) =~= vstd::bytes::spec_u64_to_le_bytes(pre.size));
            assert(self.bytes@.subrange(8, 16) =~= vstd::bytes::spec_u64_to_le_bytes(pre.max_bit));
            vstd::bytes::lemma_auto_spec_u64_to_from_le_bytes();
            assert(image_bits(self.bytes@) == image_bits(pre.bytes@));
            if pre.size > 0 {
                assert(image_has(self.bytes@, pre.max_bit as int));
                assert forall|b: int| image_has(self.bytes@, b) implies b <= pre.max_bit by {
                    assert(image_has(pre.bytes@, b));
                }
            }
            assert(wf_parts(self.bytes@, pre.size, pre.max_bit));
        }
    }

    /// The count of set bits.
    pub fn size(&self) -> (r: u64)
        ensures
            r == self.spec_size(),
    {
        self.size
    }

    /// True iff no bit is set.
    pub fn is_empty(&self) -> (r: bool)
        ensures
            r == (self.spec_size() == 0),
    {
        self.size == 0
    }

    /// The highest set bit, or `None` when the set is empty.
    pub fn max_bit(&self) -> (r: Option<u64>)
        ensures
            r == (if self.spec_size() == 0 {
                Option::<u64>::None
            } else {
                Option::Some(self.spec_max())
            }),
    {
        if self.size() > 0 {
            Some(self.max_bit)
        } else {
            None
        }
    }

    /// The length in bytes of the file image.
    pub fn file_len(&self) -> (r: usize)
        ensures
            r == self.spec_len(),
    {
        self.bytes.len()
    }

    /// Borrows the full file image, for the embedding program to persist.
    pub fn as_bytes(&self) -> (r: &Vec<u8>)
        ensures
            r@ == self.spec_bytes(),
    {
        &self.bytes
    }

    /// Membership test. Never fails: the image is always long enough for
    /// any bit the invariant admits, and everything else is absent.
    pub fn contains(&self, bit: u64) -> (r: Result<bool, ContainerError>)
        requires
            self.wf(),
        ensures
            r == Ok::<bool, ContainerError>(self.spec_has(bit as int)),
    {
        if self.size > 0 && bit <= self.max_bit {
            let n = self.bytes.len();
            let (offset, mask) = bit_map_offset_and_bit_mask(bit);
            proof {
                assert(n == 17 + self.spec_max() as int / 8);
                assert(offset <= self.spec_max() / 8);
            }
            let idx: usize = 16 + (offset as usize);
            let byte = self.bytes[idx];
            proof {
                lemma_mask_test(byte, (bit % 8) as u8);
                assert(self.spec_bytes().skip(16)[bit as int / 8] == byte);
                assert(bit < 8 * (1 + self.spec_max() as int / 8));
            }
            Ok(byte & mask == mask)
        } else {
            proof {
                if self.size > 0 && self.spec_has(bit as int) {
                    assert(bit <= self.max_bit);
                }
                if self.size == 0 {
                    assert(image_bits(self.spec_bytes()).len() == 0);
                }
            }
            Ok(false)
        }
    }

    /// Adds a bit to the set. Returns `Ok(true)` iff the bit was not already
    /// present. When the target byte lies beyond the current image, the
    /// image is extended with zero fill up to and including that byte, so
    /// the gap reads as absent bits.
    #[verifier::rlimit(60)]
    pub fn insert(&mut self, bit: u64) -> (r: Result<bool, ContainerError>)
        requires
            old(self).wf(),
            bit / 8 + 17 <= usize::MAX as u64,
            old(self).spec_size() < u64::MAX,
        ensures
            final(self).wf(),
            r == Ok::<bool, ContainerError>(!old(self).spec_has(bit as int)),
            final(self).spec_has(bit as int),
            forall|b: int| b != bit ==> final(self).spec_has(b) == old(self).spec_has(b),
            final(self).spec_size() == old(self).spec_size() + (if old(self).spec_has(bit as int) {
                0int
            } else {
                1int
            }),
            final(self).spec_max() == (if old(self).spec_size() == 0 || bit > old(self).spec_max() {
                bit
            } else {
                old(self).spec_max()
            }),
            old(self).spec_has(bit as int) ==> final(self).spec_bytes() == old(self).spec_bytes(),
    {
        proof {
            if bit > old(self).spec_max() {
                vstd::arithmetic::div_mod::lemma_div_is_ordered(
                    old(self).spec_max() as int,
                    bit as int,
                    8,
                );
            } else {
                vstd::arithmetic::div_mod::lemma_div_is_ordered(
                    bit as int,
                    old(self).spec_max() as int,
                    8,
                );
            }
        }
        let ghost pre = *old(self);
        let n = self.bytes.len();
        let (offset, mask) = bit_map_offset_and_bit_mask(bit);
        let ghost k = (bit % 8) as u8;
        let ghost o = bit as int / 8;
        let was_set: bool;
        if offset < (n as u64) - 16 {
            // The byte already exists: test and set in place.
            let idx: usize = 16 + (offset as usize);
            let byte = self.bytes[idx];
            was_set = byte & mask == mask;
            proof {
                lemma_mask_test(byte, k);
                assert(pre.spec_bytes().skip(16)[o] == byte);
                assert(bit < image_bits(pre.spec_bytes()).len());
                assert(was_set == pre.spec_has(bit as int));
                if was_set {
                    assert(bit <= pre.max_bit);
                }
            }
            if !was_set {
                self.bytes[idx] = byte | mask;
                proof {
                    assert forall|p: int| 0 <= p < image_bits(self.bytes@).len() implies
                        image_bits(self.bytes@)[p] == image_bits(pre.bytes@).update(
                        bit as int,
                        true,
                    )[p] by {
                        assert(self.bytes@.skip(16) =~= pre.bytes@.skip(16).update(o, byte | mask));
                        if p / 8 == o {
                            lemma_or_bit(byte, k, (p % 8) as u8);
                            assert(p == 8 * o + p % 8);
                        } else {
                            assert(self.bytes@.skip(16)[p / 8] == pre.bytes@.skip(16)[p / 8]);
                        }
                    }
                    assert(image_bits(self.bytes@) =~= image_bits(pre.bytes@).update(
                        bit as int,
                        true,
                    ));
                    lemma_count_update(image_bits(pre.bytes@), bit as int, true);
                    assert(count_trues(image_bits(self.bytes@)) == pre.size + 1);
                    assert forall|p: int|
                        image_has(self.bytes@, p) <==> (image_has(pre.bytes@, p) || p
                            == bit) by {}
                }
            }
        } else {
            // The byte lies beyond the image: zero-fill the gap, then
            // append the single byte holding the new bit.
            let idx: usize = 16 + (offset as usize);
            was_set = false;
            proof {
                assert(!pre.spec_has(bit as int));
            }
            while self.bytes.len() < idx
                invariant
                    pre.bytes@.len() <= self.bytes@.len() <= idx,
                    idx <= usize::MAX,
                    self.bytes@ =~= pre.bytes@ + Seq::new(
                        (self.bytes@.len() - pre.bytes@.len()) as nat,
                        |j: int| 0u8,
                    ),
                    self.size == pre.size,
                    self.max_bit == pre.max_bit,
                decreases idx - self.bytes@.len(),
            {
                self.bytes.push(0);
            }
            self.bytes.push(mask);
            proof {
                let fill = Seq::new((idx - pre.bytes@.len()) as nat, |j: int| 0u8);
                let tail = fill.push(mask);
                assert(self.bytes@ =~= pre.bytes@ + tail);
                assert(self.bytes@.skip(16) =~= pre.bytes@.skip(16) + tail);
                lemma_bits_of_append(pre.bytes@.skip(16), tail);
                // Every flag of the appended region is clear but bit `k` of
                // its last byte.
                lemma_byte_zero(0u8);
                assert forall|p: int| 0 <= p < bits_of(tail).len() implies bits_of(tail)[p] == (p
                    == 8 * (tail.len() - 1) + k) by {
                    if p / 8 < tail.len() - 1 {
                        assert(tail[p / 8] == 0u8);
                    } else {
                        assert(p / 8 == tail.len() - 1);
                        assert(tail[p / 8] == mask);
                        assert(p == 8 * (p / 8) + p % 8);
                    }
                }
                // Counting: the old flags, plus the all-but-one clear tail.
                let zeros = Seq::new(tail.len() * 8, |j: int| false);
                lemma_count_zero(zeros);
                assert(bits_of(tail) =~= zeros.update(8 * (tail.len() - 1) + k, true));
                lemma_count_update(zeros, 8 * (tail.len() - 1) + k, true);
                lemma_count_append(image_bits(pre.bytes@), bits_of(tail));
                assert(image_bits(self.bytes@) =~= image_bits(pre.bytes@) + bits_of(tail));
                assert(bit == image_bits(pre.bytes@).len() + 8 * (tail.len() - 1) + k);
                assert(count_trues(bits_of(tail)) == 1);
                assert(count_trues(image_bits(self.bytes@)) == pre.size + 1);
                assert forall|p: int|
                    image_has(self.bytes@, p) <==> (image_has(pre.bytes@, p) || p == bit) by {
                    let n1 = image_bits(pre.bytes@).len();
                    if 0 <= p < image_bits(self.bytes@).len() {
                        if p >= n1 {
                            assert(image_bits(self.bytes@)[p] == bits_of(tail)[p - n1]);
                        }
                    }
                }
            }
        }
        if !was_set {
            self.size = self.size + 1;
            if bit > self.max_bit {
                self.max_bit = bit;
            }
        }
        proof {
            if was_set {
                assert(self.spec_bytes() == pre.spec_bytes());
                assert(self.size == pre.size && self.max_bit == pre.max_bit);
                lemma_count_zero(image_bits(pre.spec_bytes()));
                assert(pre.size > 0);
                assert forall|b: int| image_has(self.spec_bytes(), b) implies b
                    <= self.spec_max() by {
                    assert(image_has(pre.spec_bytes(), b) == image_has(self.spec_bytes(), b));
                }
                assert(image_has(self.spec_bytes(), self.spec_max() as int) == image_has(
                    pre.spec_bytes(),
                    pre.spec_max() as int,
                ));
                assert(self.wf());
            } else {
                assert(count_trues(image_bits(self.spec_bytes())) == pre.size + 1);
                assert(image_has(self.spec_bytes(), bit as int));
                assert forall|b: int| image_has(self.spec_bytes(), b) implies b
                    <= self.spec_max() by {
                    assert(image_has(self.bytes@, b) == image_has(self.spec_bytes(), b));
                    if b != bit {
                        assert(image_has(pre.spec_bytes(), b) == image_has(pre.bytes@, b));
                        assert(pre.spec_has(b));
                    }
                }
                assert(self.spec_bytes().len() == 17 + self.spec_max() as int / 8);
                assert(self.wf());
            }
        }
        Ok(!was_set)
    }

    /// Removes a bit from the set. Returns `Ok(true)` iff the bit was
    /// present. Clearing the last member truncates the image to its header;
    /// clearing the highest member scans backward to the nearest byte that
    /// still holds a member, truncates the image right after that byte, and
    /// recomputes `max_bit` from it.
    #[verifier::loop_isolation(false)]
    #[verifier::rlimit(100)]
    pub fn remove(&mut self, bit: u64) -> (r: Result<bool, ContainerError>)
        requires
            old(self).wf(),
        ensures
            final(self).wf(),
            r == Ok::<bool, ContainerError>(old(self).spec_has(bit as int)),
            !final(self).spec_has(bit as int),
            forall|b: int| b != bit ==> final(self).spec_has(b) == old(self).spec_has(b),
            final(self).spec_size() == old(self).spec_size() - (if old(self).spec_has(bit as int) {
                1int
            } else {
                0int
            }),
            !old(self).spec_has(bit as int) ==> final(self).spec_bytes() == old(self).spec_bytes()
                && final(self).spec_max() == old(self).spec_max(),
            old(self).spec_has(bit as int) && bit < old(self).spec_max() ==> final(self).spec_max()
                == old(self).spec_max(),
    {
        let ghost pre = *old(self);
        if self.size > 0 && bit <= self.max_bit {
            let n = self.bytes.len();
            let (offset, mask) = bit_map_offset_and_bit_mask(bit);
            proof {
                assert(n == 17 + pre.spec_max() as int / 8);
                vstd::arithmetic::div_mod::lemma_div_is_ordered(
                    bit as int,
                    pre.spec_max() as int,
                    8,
                );
            }
            let idx: usize = 16 + (offset as usize);
            let byte0 = self.bytes[idx];
            let ghost k = (bit % 8) as u8;
            let ghost o = bit as int / 8;
            let bit_was_set = byte0 & mask == mask;
            proof {
                lemma_mask_test(byte0, k);
                assert(pre.spec_bytes().skip(16)[o] == byte0);
                assert(bit < image_bits(pre.spec_bytes()).len());
                assert(bit_was_set == pre.spec_has(bit as int));
            }
            if bit_was_set {
                let cleared = byte0 & !mask;
                self.bytes[idx] = cleared;
                let ghost bits0 = image_bits(pre.spec_bytes());
                let ghost mid = *self;
                let ghost bits1 = image_bits(mid.spec_bytes());
                proof {
                    assert(mid.bytes@.skip(16) =~= pre.bytes@.skip(16).update(o, cleared));
                    assert forall|p: int| 0 <= p < bits1.len() implies bits1[p] == bits0.update(
                        bit as int,
                        false,
                    )[p] by {
                        if p / 8 == o {
                            lemma_andnot_bit(byte0, k, (p % 8) as u8);
                            assert(p == 8 * (p / 8) + p % 8);
                        } else {
                            assert(mid.bytes@.skip(16)[p / 8] == pre.bytes@.skip(16)[p / 8]);
                        }
                    }
                    assert(bits1 =~= bits0.update(bit as int, false));
                    lemma_count_update(bits0, bit as int, false);
                    assert(count_trues(bits1) == pre.spec_size() - 1);
                }
                if self.size == 1 {
                    self.bytes.truncate(16);
                    self.max_bit = 0;
                    proof {
                        lemma_count_one(bits0, bit as int);
                        assert(self.bytes@.skip(16) =~= Seq::<u8>::empty());
                        assert forall|b: int| b != bit implies image_has(self.spec_bytes(), b)
                            == image_has(pre.spec_bytes(), b) by {}
                    }
                } else if bit == self.max_bit {
                    let mut scan: u64 = offset;
                    let mut byte: u8 = cleared;
                    proof {
                        assert forall|p: int| 8 * scan + 8 <= p < bits1.len() implies !bits1[p] by {
                            assert(p != bit);
                            assert(!image_has(pre.spec_bytes(), p));
                        }
                    }
                    while scan > 0 && byte == 0
                        invariant
                            scan <= offset,
                            byte == mid.bytes@.skip(16)[scan as int],
                            forall|p: int| 8 * scan + 8 <= p < bits1.len() ==> !bits1[p],
                        decreases scan,
                    {
                        proof {
                            lemma_byte_zero(byte);
                            assert forall|p: int|
                                8 * (scan - 1) + 8 <= p < bits1.len() implies !bits1[p] by {
                                if p < 8 * scan + 8 {
                                    assert(p / 8 == scan as int);
                                    assert(bits1[p] == byte_bit(byte, (p % 8) as u8));
                                }
                            }
                        }
                        scan = scan - 1;
                        byte = self.bytes[16 + (scan as usize)];
                    }
                    proof {
                        if byte == 0 {
                            lemma_byte_zero(byte);
                            assert forall|p: int| 0 <= p < bits1.len() implies !bits1[p] by {
                                if p < 8 {
                                    assert(p / 8 == 0);
                                    assert(bits1[p] == byte_bit(byte, (p % 8) as u8));
                                }
                            }
                            lemma_count_zero(bits1);
                            assert(false);
                        }
                    }
                    let new_max = match max_id_from(scan, byte) {
                        Some(m) => m,
                        None => 0,  // cannot happen: the scan stopped on a set byte
                    };
                    proof {
                        assert(new_max as int / 8 == scan as int) by (nonlinear_arith)
                            requires
                                8 * scan <= new_max < 8 * scan + 8,
                        ;
                        assert(bits1[new_max as int] == byte_bit(byte, (new_max % 8) as u8));
                        assert(byte_bit(byte, (new_max - 8 * scan) as u8));
                    }
                    self.bytes.truncate(16 + (scan as usize) + 1);
                    self.max_bit = new_max;
                    proof {
                        let keep = mid.bytes@.skip(16).subrange(0, scan as int + 1);
                        let rest = mid.bytes@.skip(16).subrange(
                            scan as int + 1,
                            mid.bytes@.skip(16).len() as int,
                        );
                        assert(self.bytes@.skip(16) =~= keep);
                        assert(mid.bytes@.skip(16) =~= keep + rest);
                        lemma_bits_of_append(keep, rest);
                        assert(bits1 =~= bits_of(keep) + bits_of(rest));
                        assert forall|q: int| 0 <= q < bits_of(rest).len() implies !bits_of(
                            rest,
                        )[q] by {
                            assert(bits_of(rest)[q] == bits1[bits_of(keep).len() + q]);
                        }
                        lemma_count_zero(bits_of(rest));
                        lemma_count_append(bits_of(keep), bits_of(rest));
                        assert(count_trues(image_bits(self.spec_bytes())) == pre.spec_size() - 1);
                        assert forall|b: int| image_has(self.spec_bytes(), b) implies b
                            <= new_max by {
                            assert(image_has(mid.spec_bytes(), b));
                            if b > new_max {
                                if b / 8 == scan as int {
                                    assert(bits1[b] == byte_bit(byte, (b % 8) as u8));
                                    assert(b == 8 * (b / 8) + b % 8);
                                } else {
                                    assert(8 * scan + 8 <= b);
                                }
                            }
                        }
                        assert(image_has(self.spec_bytes(), new_max as int));
                        assert forall|b: int| b != bit implies image_has(self.spec_bytes(), b)
                            == image_has(pre.spec_bytes(), b) by {
                            if b >= bits_of(keep).len() {
                                if 0 <= b < bits1.len() {
                                    assert(8 * scan + 8 <= b);
                                    assert(!bits1[b]);
                                }
                            }
                        }
                    }
                } else {
                    proof {
                        assert(image_has(self.spec_bytes(), pre.spec_max() as int));
                        assert forall|b: int| image_has(self.spec_bytes(), b) implies b
                            <= pre.spec_max() by {
                            assert(image_has(pre.spec_bytes(), b));
                        }
                        assert forall|b: int| b != bit implies image_has(self.spec_bytes(), b)
                            == image_has(pre.spec_bytes(), b) by {}
                    }
                }
                self.size = self.size - 1;
                proof {
                    assert(self.wf());
                }
                return Ok(true);
            }
        }
        proof {
            if self.size == 0 {
                assert(image_bits(pre.spec_bytes()).len() == 0);
            } else if bit > self.max_bit {
                if pre.spec_has(bit as int) {
                    assert(bit <= pre.spec_max());
                }
            }
            assert(!pre.spec_has(bit as int));
        }
        Ok(false)
    }

    /// Empties the set: counters reset and the image truncated to its
    /// header. Always succeeds.
    pub fn clear(&mut self) -> (r: Result<(), ContainerError>)
        requires
            old(self).wf(),
        ensures
            r == Ok::<(), ContainerError>(()),
            final(self).wf(),
            final(self).spec_size() == 0,
            final(self).spec_max() == 0,
            final(self).spec_bytes() == old(self).spec_bytes().subrange(0, 16),
            forall|b: int| !final(self).spec_has(b),
    {
        self.size = 0;
        self.max_bit = 0;
        self.bytes.truncate(HEADER_BYTE_SIZE as usize);
        proof {
            assert(self.bytes@.skip(16) =~= Seq::<u8>::empty());
        }
        Ok(())
    }

    /// Checks the invariant of a set rebuilt from an arbitrary image:
    /// exactly when the stored counters match the bitmap bytes — the length
    /// ends right after the byte of `max_bit`, that bit is set, nothing
    /// above it is, and `size` counts the set bits — the set is well formed.
    #[verifier::loop_isolation(false)]
    #[verifier::rlimit(100)]
    pub fn validate(&self) -> (r: bool)
        ensures
            r == self.wf(),
    {
        let n = self.bytes.len();
        if n < 16 {
            return false;
        }
        if self.size == 0 {
            let ok = n == 16 && self.max_bit == 0;
            proof {
                if ok {
                    assert(self.spec_bytes().skip(16) =~= Seq::<u8>::empty());
                }
            }
            return ok;
        }
        if self.max_bit / 8 + 17 != n as u64 {
            return false;
        }
        let (offset, mask) = bit_map_offset_and_bit_mask(self.max_bit);
        let k = (self.max_bit % 8) as u8;
        let idx: usize = 16 + (offset as usize);
        let top = self.bytes[idx];
        proof {
            lemma_mask_test(top, k);
            assert(self.spec_bytes().skip(16)[offset as int] == top);
        }
        if top & mask != mask {
            proof {
                if self.wf() {
                    assert(image_has(self.spec_bytes(), self.max_bit as int));
                }
            }
            return false;
        }
        if k < 7 {
            let above = top >> (k + 1);
            if above != 0 {
                proof {
                    lemma_byte_zero(above);
                    let j = choose|j: u8| j < 8 && byte_bit(above, j);
                    lemma_shr_bits(top, (k + 1) as u8, j);
                    let b = 8 * (offset as int) + j + k + 1;
                    assert(image_has(self.spec_bytes(), b));
                    assert(b > self.max_bit);
                    if self.wf() {
                        assert(b <= self.max_bit);
                    }
                }
                return false;
            }
        }
        // Count the set bits of the whole bitmap region.
        let ghost data = self.spec_bytes().skip(16);
        let mut count: u64 = 0;
        let mut i: usize = 16;
        while i < n
            invariant
                16 <= i <= n,
                count == count_trues(bits_of(data.take(i - 16))),
                count <= self.size,
            decreases n - i,
        {
            let ones = byte_ones(self.bytes[i]);
            proof {
                assert(data.take(i - 16 + 1) =~= data.take(i - 16) + seq![self.spec_bytes()[i as int]]);
                lemma_bits_of_append(data.take(i - 16), seq![self.spec_bytes()[i as int]]);
                lemma_count_append(
                    bits_of(data.take(i - 16)),
                    bits_of(seq![self.spec_bytes()[i as int]]),
                );
            }
            if (ones as u64) > self.size - count {
                proof {
                    assert(data =~= data.take(i - 16 + 1) + data.skip(i - 16 + 1));
                    lemma_bits_of_append(data.take(i - 16 + 1), data.skip(i - 16 + 1));
                    lemma_count_append(
                        bits_of(data.take(i - 16 + 1)),
                        bits_of(data.skip(i - 16 + 1)),
                    );
                    assert(count_trues(image_bits(self.spec_bytes())) > self.size);
                }
                return false;
            }
            count = count + (ones as u64);
            i += 1;
        }
        proof {
            assert(data.take(n - 16) =~= data);
        }
        let ok = count == self.size;
        proof {
            if ok {
                assert forall|b: int| image_has(self.spec_bytes(), b) implies b
                    <= self.max_bit by {
                    if b / 8 < offset as int {
                        assert(b < 8 * (offset as int));
                        assert(self.max_bit >= 8 * offset);
                    } else {
                        assert(b / 8 == offset as int);
                        assert(image_bits(self.spec_bytes())[b] == byte_bit(top, (b % 8) as u8));
                        assert(b == 8 * (b / 8) + b % 8);
                        if b % 8 > k {
                            if k < 7 {
                                lemma_shr_bits(top, (k + 1) as u8, (b % 8 - k - 1) as u8);
                                lemma_byte_zero(top >> ((k + 1) as u8));
                            }
                        }
                    }
                }
                assert(self.wf());
            }
        }
        ok
    }

    /// A cursor over the members, scanning candidate ids from both ends.
    pub fn contains_iter(&self) -> (it: ContainsIterator<'_>)
        requires
            self.wf(),
            self.spec_size() > 0 ==> self.spec_max() < u64::MAX,
        ensures
            it.wf(),
            it.source() == *self,
            it.spec_lower() == 0,
            it.spec_upper() == self.spec_max(),
            it.spec_done() == (self.spec_size() == 0),
    {
        ContainsIterator { lower_next: 0, upper_next: self.max_bit, done: self.is_empty(), bsf: self }
    }
}

/// Shrink correctness for [`BitSetFile::remove`]: clearing the highest
/// member leaves `max_bit` at the next-highest member that is still set and
/// the image truncated right after that member's byte; clearing the sole
/// member truncates the image to header-only length.
pub proof fn lemma_remove_max_shrinks(pre: BitSetFile, post: BitSetFile, bit: u64)
    requires
        pre.wf(),
        post.wf(),
        pre.spec_has(bit as int),
        bit == pre.spec_max(),
        !post.spec_has(bit as int),
        forall|b: int| b != bit ==> post.spec_has(b) == pre.spec_has(b),
        post.spec_size() == pre.spec_size() - 1,
    ensures
        pre.spec_size() == 1 ==> post.spec_len() == 16,
        pre.spec_size() > 1 ==> {
            &&& post.spec_size() > 0
            &&& post.spec_max() < pre.spec_max()
            &&& post.spec_has(post.spec_max() as int)
            &&& forall|b: int| post.spec_max() < b ==> !post.spec_has(b)
            &&& post.spec_len() == 17 + post.spec_max() as int / 8
        },
{
    if pre.spec_size() > 1 {
        assert(post.spec_has(post.spec_max() as int));
        assert(pre.spec_has(post.spec_max() as int));
        assert(post.spec_max() < pre.spec_max());
        assert forall|b: int| post.spec_max() < b implies !post.spec_has(b) by {}
    }
}

/// A bidirectional cursor over the members of a [`BitSetFile`]: candidate
/// ids are tested one at a time, upward from `lower_next` or downward from
/// `upper_next`, until the two ends meet.
pub struct ContainsIterator<'a> {
    lower_next: u64,
    upper_next: u64,
    done: bool,
    bsf: &'a BitSetFile,
}

impl<'a> ContainsIterator<'a> {
    /// The set being enumerated.
    pub closed spec fn source(self) -> BitSetFile {
        *self.bsf
    }

    /// The lowest candidate id not yet scanned from below.
    pub closed spec fn spec_lower(self) -> u64 {
        self.lower_next
    }

    /// The highest candidate id not yet scanned from above.
    pub closed spec fn spec_upper(self) -> u64 {
        self.upper_next
    }

    /// Whether the scan range is exhausted.
    pub closed spec fn spec_done(self) -> bool {
        self.done
    }

    /// The cursor stays inside a well-formed set and keeps room to advance.
    pub open spec fn wf(self) -> bool {
        &&& self.source().wf()
        &&& (!self.spec_done() ==> self.spec_upper() < u64::MAX)
    }

    /// The next member scanning upward: the smallest member at or above
    /// `lower_next` that is still at or below `upper_next`.
    #[verifier::loop_isolation(false)]
    pub fn next(&mut self) -> (r: Option<u64>)
        requires
            old(self).wf(),
        ensures
            final(self).wf(),
            final(self).source() == old(self).source(),
            final(self).spec_upper() == old(self).spec_upper(),
            final(self).spec_done() == old(self).spec_done(),
            r matches Some(b) ==> {
                &&& old(self).spec_lower() <= b <= old(self).spec_upper()
                &&& !old(self).spec_done()
                &&& old(self).source().spec_has(b as int)
                &&& forall|j: u64|
                    old(self).spec_lower() <= j < b ==> !old(self).source().spec_has(j as int)
                &&& final(self).spec_lower() == b + 1
            },
            r is None ==> old(self).spec_done() || (forall|j: u64|
                old(self).spec_lower() <= j <= old(self).spec_upper() ==> !old(
                    self,
                ).source().spec_has(j as int)),
            // an exhausted cursor stays exhausted: after a `None` either the
            // scan was already done or the two ends have crossed for good
            r is None ==> old(self).spec_done() || final(self).spec_lower()
                > final(self).spec_upper(),
    {
        if self.done {
            return None;
        }
        let ghost start = *old(self);
        while self.lower_next <= self.upper_next
            invariant
                self.upper_next == start.spec_upper(),
                self.done == start.spec_done(),
                self.bsf == start.bsf,
                start.spec_lower() <= self.lower_next,
                self.lower_next == start.spec_lower() || self.lower_next <= start.spec_upper() + 1,
                forall|j: u64|
                    start.spec_lower() <= j < self.lower_next ==> !start.source().spec_has(j as int),
            decreases start.spec_upper() + 1 - self.lower_next,
        {
            let cur_bit = self.lower_next;
            self.lower_next = self.lower_next + 1;
            let found = match self.bsf.contains(cur_bit) {
                Ok(b) => b,
                Err(_) => false,
            };
            if found {
                return Some(cur_bit);
            }
        }
        None
    }

    /// The next member scanning downward: the largest member at or below
    /// `upper_next` that is still at or above `lower_next`. Reaching id 0
    /// exhausts the cursor.
    #[verifier::loop_isolation(false)]
    pub fn next_back(&mut self) -> (r: Option<u64>)
        requires
            old(self).wf(),
        ensures
            final(self).wf(),
            final(self).source() == old(self).source(),
            final(self).spec_lower() == old(self).spec_lower(),
            r matches Some(b) ==> {
                &&& old(self).spec_lower() <= b <= old(self).spec_upper()
                &&& !old(self).spec_done()
                &&& old(self).source().spec_has(b as int)
                &&& forall|j: u64|
                    b < j <= old(self).spec_upper() ==> !old(self).source().spec_has(j as int)
                &&& (b > 0 ==> final(self).spec_upper() == b - 1 && final(self).spec_done() == old(
                    self,
                ).spec_done())
                &&& (b == 0 ==> final(self).spec_done())
            },
            r is None ==> old(self).spec_done() || (forall|j: u64|
                old(self).spec_lower() <= j <= old(self).spec_upper() ==> !old(
                    self,
                ).source().spec_has(j as int)),
            // an exhausted cursor stays exhausted: after a `None` either the
            // scan was already done or the two ends have crossed for good
            r is None ==> final(self).spec_done() || final(self).spec_lower()
                > final(self).spec_upper(),
    {
        if self.done {
            return None;
        }
        let ghost start = *old(self);
        while self.lower_next <= self.upper_next
            invariant
                self.lower_next == start.spec_lower(),
                self.bsf == start.bsf,
                self.upper_next <= start.spec_upper(),
                self.done ==> self.upper_next == 0,
                !self.done ==> forall|j: u64|
                    self.upper_next < j <= start.spec_upper() ==> !start.source().spec_has(j as int),
                self.done ==> forall|j: u64|
                    0 < j <= start.spec_upper() ==> !start.source().spec_has(j as int),
            decreases self.upper_next,
        {
            let cur_bit = self.upper_next;
            let at_zero = cur_bit == 0;
            if at_zero {
                self.done = true;
            } else {
                self.upper_next = self.upper_next - 1;
            }
            let found = match self.bsf.contains(cur_bit) {
                Ok(b) => b,
                Err(_) => false,
            };
            if found {
                return Some(cur_bit);
            }
            if at_zero {
                return None;
            }
        }
        None
    }

    /// A size hint in the shape the standard iterator protocol uses: no
    /// lower bound, and the member count as the upper bound.
    pub fn size_hint(&self) -> (r: (usize, Option<usize>))
        ensures
            r.0 == 0,
            r.1 is Some,
    {
        (0, Some(#[verifier::truncate] (self.bsf.size() as usize)))
    }

    /// The member count of the underlying set.
    pub fn len(&self) -> (r: usize)
        ensures
            r as u64 == self.source().spec_size() || self.source().spec_size() > usize::MAX as u64,
    {
        #[verifier::truncate] (self.bsf.size() as usize)
    }
}

} // verus!
