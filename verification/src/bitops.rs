//! Bit-level view of a byte-packed bitmap region, and the counting lemmas
//! that relate single-byte updates to the set of bits they represent.

use vstd::prelude::*;

verus! {

/// True iff bit `k` of byte `b` is set; meaningful for `k < 8`.
pub open spec fn byte_bit(b: u8, k: u8) -> bool {
    (b >> k) & 1u8 == 1u8
}

/// The bits of a byte region, least significant bit of byte 0 first:
/// flag `i` of the result is bit `i % 8` of byte `i / 8`.
pub open spec fn bits_of(data: Seq<u8>) -> Seq<bool> {
    Seq::new(data.len() * 8, |i: int| byte_bit(data[i / 8], (i % 8) as u8))
}

/// How many of the flags in `s` are set.
pub open spec fn count_trues(s: Seq<bool>) -> nat
    decreases s.len(),
{
    if s.len() == 0 {
        0nat
    } else {
        count_trues(s.drop_last()) + (if s.last() {
            1nat
        } else {
            0nat
        })
    }
}

/// Setting one bit of a byte sets exactly that position.
pub proof fn lemma_or_bit(b: u8, k: u8, j: u8)
    by (bit_vector)
    requires
        k < 8,
        j < 8,
    ensures
        byte_bit(b | (1u8 << k), j) == (byte_bit(b, j) || j == k),
{
}

/// Clearing one bit of a byte clears exactly that position.
pub proof fn lemma_andnot_bit(b: u8, k: u8, j: u8)
    by (bit_vector)
    requires
        k < 8,
        j < 8,
    ensures
        byte_bit(b & !(1u8 << k), j) == (byte_bit(b, j) && j != k),
{
}

/// The mask test used by the executable code agrees with `byte_bit`.
pub proof fn lemma_mask_test(b: u8, k: u8)
    by (bit_vector)
    requires
        k < 8,
    ensures
        (b & (1u8 << k) == 1u8 << k) == byte_bit(b, k),
{
}

/// A single-bit mask has exactly one position set.
pub proof fn lemma_mask_bits(k: u8, j: u8)
    by (bit_vector)
    requires
        k < 8,
        j < 8,
    ensures
        byte_bit(1u8 << k, j) == (j == k),
{
}

/// Shifting right moves the bit positions down.
pub proof fn lemma_shr_bits(b: u8, m: u8, j: u8)
    by (bit_vector)
    requires
        m < 8,
        j < 8,
    ensures
        byte_bit(b >> m, j) == (j + m < 8 && byte_bit(b, (j + m) as u8)),
{
}

/// A byte is zero exactly when none of its bits is set.
pub proof fn lemma_byte_zero(b: u8)
    ensures
        (b == 0) <==> (forall|k: u8| k < 8 ==> !byte_bit(b, k)),
{
    assert((b == 0) <==> (!byte_bit(b, 0) && !byte_bit(b, 1) && !byte_bit(b, 2) && !byte_bit(b, 3)
        && !byte_bit(b, 4) && !byte_bit(b, 5) && !byte_bit(b, 6) && !byte_bit(b, 7)))
        by (bit_vector);
    if b == 0 {
        assert forall|k: u8| k < 8 implies !byte_bit(b, k) by {
            assert(k == 0 || k == 1 || k == 2 || k == 3 || k == 4 || k == 5 || k == 6 || k == 7);
        }
    }
}

/// The bit view distributes over concatenation of byte regions.
pub proof fn lemma_bits_of_append(d1: Seq<u8>, d2: Seq<u8>)
    ensures
        bits_of(d1 + d2) =~= bits_of(d1) + bits_of(d2),
{
    assert((d1 + d2).len() * 8 == d1.len() * 8 + d2.len() * 8);
    assert forall|p: int| 0 <= p < (d1 + d2).len() * 8 implies bits_of(d1 + d2)[p] == (bits_of(d1)
        + bits_of(d2))[p] by {
        if p < d1.len() * 8 {
            assert(p / 8 < d1.len()) by (nonlinear_arith)
                requires
                    0 <= p,
                    p < d1.len() * 8,
            ;
            assert((d1 + d2)[p / 8] == d1[p / 8]);
        } else {
            let q = p - d1.len() * 8;
            assert(p / 8 == d1.len() + q / 8 && p % 8 == q % 8) by (nonlinear_arith)
                requires
                    0 <= q,
                    p == d1.len() * 8 + q,
            ;
            assert((d1 + d2)[p / 8] == d2[q / 8]);
        }
    }
}

/// Counts the set bits of one byte.
pub fn byte_ones(b: u8) -> (r: u8)
    ensures
        r == count_trues(bits_of(seq![b])),
        r <= 8,
{
    let ghost flags = bits_of(seq![b]);
    let mut k: u8 = 0;
    let mut c: u8 = 0;
    while k < 8
        invariant
            k <= 8,
            c <= k,
            flags == bits_of(seq![b]),
            c == count_trues(flags.take(k as int)),
        decreases 8 - k,
    {
        proof {
            assert(flags.take(k as int + 1).drop_last() =~= flags.take(k as int));
            assert(flags.take(k as int + 1).last() == byte_bit(b, k));
        }
        if (b >> k) & 1 == 1 {
            c += 1;
        }
        k += 1;
    }
    proof {
        assert(flags.take(8) =~= flags);
    }
    c
}

/// Updating one flag changes the count by the difference at that position.
pub proof fn lemma_count_update(s: Seq<bool>, i: int, v: bool)
    requires
        0 <= i < s.len(),
    ensures
        count_trues(s.update(i, v)) == count_trues(s) - (if s[i] {
            1int
        } else {
            0int
        }) + (if v {
            1int
        } else {
            0int
        }),
    decreases s.len(),
{
    let s2 = s.update(i, v);
    if i == s.len() - 1 {
        assert(s2.drop_last() =~= s.drop_last());
    } else {
        assert(s2.drop_last() =~= s.drop_last().update(i, v));
        lemma_count_update(s.drop_last(), i, v);
    }
}

/// The count is zero exactly when every flag is clear.
pub proof fn lemma_count_zero(s: Seq<bool>)
    ensures
        (count_trues(s) == 0) <==> (forall|i: int| 0 <= i < s.len() ==> !s[i]),
    decreases s.len(),
{
    if s.len() > 0 {
        lemma_count_zero(s.drop_last());
        assert(forall|i: int| 0 <= i < s.len() - 1 ==> s[i] == s.drop_last()[i]);
    }
}

/// Counting distributes over concatenation.
pub proof fn lemma_count_append(s1: Seq<bool>, s2: Seq<bool>)
    ensures
        count_trues(s1 + s2) == count_trues(s1) + count_trues(s2),
    decreases s2.len(),
{
    if s2.len() == 0 {
        assert(s1 + s2 =~= s1);
    } else {
        assert((s1 + s2).drop_last() =~= s1 + s2.drop_last());
        lemma_count_append(s1, s2.drop_last());
    }
}

/// A count of one at a known set position pins every other flag clear.
pub proof fn lemma_count_one(s: Seq<bool>, i: int)
    requires
        count_trues(s) == 1,
        0 <= i < s.len(),
        s[i],
    ensures
        forall|j: int| 0 <= j < s.len() && j != i ==> !s[j],
{
    let s2 = s.update(i, false);
    lemma_count_update(s, i, false);
    lemma_count_zero(s2);
    assert(forall|j: int| 0 <= j < s.len() && j != i ==> s[j] == s2[j]);
}

} // verus!
