//! Newline masks: one bit for each byte of a chunk.
//!
//! Bit `k` of a chunk's mask is set exactly when byte `k` of the chunk is a
//! newline. The kernels walk a mask from its lowest set bit upwards and clear
//! each bit as they go.

use crate::lines::{closed_lines, lemma_closed_lines_len, newline_offsets, NEWLINE};
use vstd::prelude::*;
use vstd::std_specs::bits::{
    axiom_u16_trailing_zeros, axiom_u32_trailing_zeros, axiom_u64_leading_zeros,
    axiom_u64_trailing_zeros, u16_trailing_zeros, u32_trailing_zeros, u64_leading_zeros,
    u64_trailing_zeros,
};

verus! {

/// Whether bit `k` of `mask` is set.
pub open spec fn bit(mask: u64, k: int) -> bool {
    0 <= k < 64 && (mask >> (k as u64)) & 1 == 1
}

/// `mask` marks the newlines of the chunk of `width` bytes at `base` that
/// stand at or behind `from`, and has no other bit set.
pub open spec fn marks_newlines(mask: u64, bytes: Seq<u8>, base: int, width: int, from: int) -> bool {
    forall|k: int|
        0 <= k < 64 ==> (#[trigger] bit(mask, k) <==> k < width && from <= base + k && bytes[base
            + k] == NEWLINE)
}

proof fn lemma_bit_or(m: u64, k: u64, j: u64)
    by (bit_vector)
    requires
        k < 64,
        j < 64,
    ensures
        ((m | (1u64 << k)) >> j) & 1 == (if j == k {
            1u64
        } else {
            (m >> j) & 1
        }),
        (0u64 >> j) & 1 == 0,
{
}

proof fn lemma_bit_clear_lowest(m: u64, p: u64, j: u64)
    by (bit_vector)
    requires
        p < 64,
        j < 64,
        (m >> p) & 1 == 1,
        m << ((64 - p) as u64) == 0,
    ensures
        m != 0,
        ((m & ((m - 1) as u64)) >> j) & 1 == (if j == p {
            0u64
        } else {
            (m >> j) & 1
        }),
        j < p ==> (m >> j) & 1 == 0,
{
}

/// What the lowest set bit of a mask stands for, and what is left of the
/// mask when that bit is cleared.
pub proof fn lemma_lowest_newline(mask: u64, bytes: Seq<u8>, base: int, width: int, from: int)
    requires
        marks_newlines(mask, bytes, base, width, from),
        mask != 0,
        0 <= base <= from,
        0 <= width <= 64,
    ensures
        ({
            let p = u64_trailing_zeros(mask) as int;
            &&& 0 <= p < width
            &&& from <= base + p
            &&& bytes[base + p] == NEWLINE
            &&& forall|i: int| from <= i < base + p ==> bytes[i] != NEWLINE
            &&& marks_newlines(mask & ((mask - 1) as u64), bytes, base, width, base + p + 1)
        }),
{
    axiom_u64_trailing_zeros(mask);
    let p = u64_trailing_zeros(mask) as u64;
    let rest = mask & ((mask - 1) as u64);
    assert(bit(mask, p as int));
    assert forall|k: int| 0 <= k < 64 implies (#[trigger] bit(rest, k) <==> k < width && base + p
        + 1 <= base + k && bytes[base + k] == NEWLINE) by {
        lemma_bit_clear_lowest(mask, p, k as u64);
        assert(bit(mask, k) <==> k < width && from <= base + k && bytes[base + k] == NEWLINE);
    }
    assert forall|i: int| from <= i < base + p implies bytes[i] != NEWLINE by {
        lemma_bit_clear_lowest(mask, p, (i - base) as u64);
        assert(!bit(mask, i - base));
    }
}

/// A mask without a set bit leaves no newline to report.
pub proof fn lemma_no_newline_left(mask: u64, bytes: Seq<u8>, base: int, width: int, from: int)
    requires
        marks_newlines(mask, bytes, base, width, from),
        mask == 0,
        0 <= base <= from,
        0 <= width <= 64,
    ensures
        forall|i: int| from <= i < base + width ==> bytes[i] != NEWLINE,
{
    assert forall|i: int| from <= i < base + width implies bytes[i] != NEWLINE by {
        lemma_bit_or(mask, 0, (i - base) as u64);
        assert(!bit(mask, i - base));
    }
}

proof fn lemma_bit_clear_lowest16(m: u16, p: u16, j: u64)
    by (bit_vector)
    requires
        p < 16,
        j < 64,
        (m >> p) & 1 == 1,
        m << ((16 - p) as u16) == 0,
    ensures
        m != 0,
        (((m & ((m - 1) as u16)) as u64) >> j) & 1 == (if j == p as u64 {
            0u64
        } else {
            ((m as u64) >> j) & 1
        }),
        j < p ==> ((m as u64) >> j) & 1 == 0,
        ((m as u64) >> (p as u64)) & 1 == 1,
{
}

proof fn lemma_bit_clear_lowest32(m: u32, p: u32, j: u64)
    by (bit_vector)
    requires
        p < 32,
        j < 64,
        (m >> p) & 1 == 1,
        m << ((32 - p) as u32) == 0,
    ensures
        m != 0,
        (((m & ((m - 1) as u32)) as u64) >> j) & 1 == (if j == p as u64 {
            0u64
        } else {
            ((m as u64) >> j) & 1
        }),
        j < p ==> ((m as u64) >> j) & 1 == 0,
        ((m as u64) >> (p as u64)) & 1 == 1,
{
}

/// [`lemma_lowest_newline`] for a mask of 16 bits.
pub proof fn lemma_lowest_newline16(mask: u16, bytes: Seq<u8>, base: int, width: int, from: int)
    requires
        marks_newlines(mask as u64, bytes, base, width, from),
        mask != 0,
        0 <= base <= from,
        0 <= width <= 64,
    ensures
        ({
            let p = u16_trailing_zeros(mask) as int;
            &&& 0 <= p < width
            &&& p < 16
            &&& from <= base + p
            &&& bytes[base + p] == NEWLINE
            &&& forall|i: int| from <= i < base + p ==> bytes[i] != NEWLINE
            &&& marks_newlines(
                (mask & ((mask - 1) as u16)) as u64,
                bytes,
                base,
                width,
                base + p + 1,
            )
        }),
{
    axiom_u16_trailing_zeros(mask);
    let p = u16_trailing_zeros(mask) as u16;
    let rest = (mask & ((mask - 1) as u16)) as u64;
    lemma_bit_clear_lowest16(mask, p, p as u64);
    assert(bit(mask as u64, p as int));
    assert forall|k: int| 0 <= k < 64 implies (#[trigger] bit(rest, k) <==> k < width && base + p
        + 1 <= base + k && bytes[base + k] == NEWLINE) by {
        lemma_bit_clear_lowest16(mask, p, k as u64);
        assert(bit(mask as u64, k) <==> k < width && from <= base + k && bytes[base + k]
            == NEWLINE);
    }
    assert forall|i: int| from <= i < base + p implies bytes[i] != NEWLINE by {
        lemma_bit_clear_lowest16(mask, p, (i - base) as u64);
        assert(!bit(mask as u64, i - base));
    }
}

/// [`lemma_lowest_newline`] for a mask of 32 bits.
pub proof fn lemma_lowest_newline32(mask: u32, bytes: Seq<u8>, base: int, width: int, from: int)
    requires
        marks_newlines(mask as u64, bytes, base, width, from),
        mask != 0,
        0 <= base <= from,
        0 <= width <= 64,
    ensures
        ({
            let p = u32_trailing_zeros(mask) as int;
            &&& 0 <= p < width
            &&& p < 32
            &&& from <= base + p
            &&& bytes[base + p] == NEWLINE
            &&& forall|i: int| from <= i < base + p ==> bytes[i] != NEWLINE
            &&& marks_newlines(
                (mask & ((mask - 1) as u32)) as u64,
                bytes,
                base,
                width,
                base + p + 1,
            )
        }),
{
    axiom_u32_trailing_zeros(mask);
    let p = u32_trailing_zeros(mask) as u32;
    let rest = (mask & ((mask - 1) as u32)) as u64;
    lemma_bit_clear_lowest32(mask, p, p as u64);
    assert(bit(mask as u64, p as int));
    assert forall|k: int| 0 <= k < 64 implies (#[trigger] bit(rest, k) <==> k < width && base + p
        + 1 <= base + k && bytes[base + k] == NEWLINE) by {
        lemma_bit_clear_lowest32(mask, p, k as u64);
        assert(bit(mask as u64, k) <==> k < width && from <= base + k && bytes[base + k]
            == NEWLINE);
    }
    assert forall|i: int| from <= i < base + p implies bytes[i] != NEWLINE by {
        lemma_bit_clear_lowest32(mask, p, (i - base) as u64);
        assert(!bit(mask as u64, i - base));
    }
}

proof fn lemma_bit_join4(m0: u16, m1: u16, m2: u16, m3: u16, j: u64)
    by (bit_vector)
    requires
        j < 64,
    ensures
        (((m0 as u64) | ((m1 as u64) << 16) | ((m2 as u64) << 32) | ((m3 as u64) << 48)) >> j) & 1
            == (if j < 16 {
            ((m0 as u64) >> j) & 1
        } else if j < 32 {
            ((m1 as u64) >> ((j - 16) as u64)) & 1
        } else if j < 48 {
            ((m2 as u64) >> ((j - 32) as u64)) & 1
        } else {
            ((m3 as u64) >> ((j - 48) as u64)) & 1
        }),
{
}

proof fn lemma_bit_join2(m0: u32, m1: u32, j: u64)
    by (bit_vector)
    requires
        j < 64,
    ensures
        ((((m1 as u64) << 32) | (m0 as u64)) >> j) & 1 == (if j < 32 {
            ((m0 as u64) >> j) & 1
        } else {
            ((m1 as u64) >> ((j - 32) as u64)) & 1
        }),
{
}

/// Four masks of 16 neighbouring bytes each, the first in the lowest bits,
/// make the mask of the 64 bytes.
pub proof fn lemma_join4(m0: u16, m1: u16, m2: u16, m3: u16, bytes: Seq<u8>, base: int)
    requires
        marks_newlines(m0 as u64, bytes, base, 16, base),
        marks_newlines(m1 as u64, bytes, base + 16, 16, base + 16),
        marks_newlines(m2 as u64, bytes, base + 32, 16, base + 32),
        marks_newlines(m3 as u64, bytes, base + 48, 16, base + 48),
    ensures
        marks_newlines(
            (m0 as u64) | ((m1 as u64) << 16) | ((m2 as u64) << 32) | ((m3 as u64) << 48),
            bytes,
            base,
            64,
            base,
        ),
{
    let all = (m0 as u64) | ((m1 as u64) << 16) | ((m2 as u64) << 32) | ((m3 as u64) << 48);
    assert forall|k: int| 0 <= k < 64 implies (#[trigger] bit(all, k) <==> k < 64 && base <= base
        + k && bytes[base + k] == NEWLINE) by {
        lemma_bit_join4(m0, m1, m2, m3, k as u64);
        if k < 16 {
            assert(bit(m0 as u64, k) <==> bytes[base + k] == NEWLINE);
        } else if k < 32 {
            assert(bit(m1 as u64, k - 16) <==> bytes[base + 16 + (k - 16)] == NEWLINE);
        } else if k < 48 {
            assert(bit(m2 as u64, k - 32) <==> bytes[base + 32 + (k - 32)] == NEWLINE);
        } else {
            assert(bit(m3 as u64, k - 48) <==> bytes[base + 48 + (k - 48)] == NEWLINE);
        }
    }
}

/// Two masks of 32 neighbouring bytes each, the first in the lowest bits,
/// make the mask of the 64 bytes.
pub proof fn lemma_join2(m0: u32, m1: u32, bytes: Seq<u8>, base: int)
    requires
        marks_newlines(m0 as u64, bytes, base, 32, base),
        marks_newlines(m1 as u64, bytes, base + 32, 32, base + 32),
    ensures
        marks_newlines(((m1 as u64) << 32) | (m0 as u64), bytes, base, 64, base),
{
    let all = ((m1 as u64) << 32) | (m0 as u64);
    assert forall|k: int| 0 <= k < 64 implies (#[trigger] bit(all, k) <==> k < 64 && base <= base
        + k && bytes[base + k] == NEWLINE) by {
        lemma_bit_join2(m0, m1, k as u64);
        if k < 32 {
            assert(bit(m0 as u64, k) <==> bytes[base + k] == NEWLINE);
        } else {
            assert(bit(m1 as u64, k - 32) <==> bytes[base + 32 + (k - 32)] == NEWLINE);
        }
    }
}

proof fn lemma_bit_grow(m: u64, k: u64)
    by (bit_vector)
    requires
        k < 64,
        m >> k == 0,
    ensures
        k < 63 ==> (m | (1u64 << k)) >> ((k + 1) as u64) == 0,
        k < 63 ==> m >> ((k + 1) as u64) == 0,
        k == 16 ==> m < 0x1_0000,
        k == 32 ==> m < 0x1_0000_0000,
{
}

/// The newline mask of the `width` bytes at `base`, found one byte at a time.
fn scan_mask(bytes: &[u8], base: usize, width: usize) -> (mask: u64)
    requires
        width <= 64,
        base + width <= bytes.len(),
    ensures
        marks_newlines(mask, bytes@, base as int, width as int, base as int),
        width < 64 ==> mask >> (width as u64) == 0,
{
    let mut mask: u64 = 0;
    let mut k: usize = 0;
    proof {
        assert(0u64 >> 0u64 == 0) by (bit_vector);
        assert forall|j: int| 0 <= j < 64 implies !#[trigger] bit(mask, j) by {
            lemma_bit_or(0, 0, j as u64);
        }
    }
    while k < width
        invariant
            k <= width <= 64,
            base + width <= bytes.len(),
            marks_newlines(mask, bytes@, base as int, k as int, base as int),
            k < 64 ==> mask >> (k as u64) == 0,
        decreases width - k,
    {
        let ghost before = mask;
        proof {
            lemma_bit_grow(before, k as u64);
        }
        if bytes[base + k] == NEWLINE {
            mask = mask | (1u64 << k);
            proof {
                assert forall|j: int| 0 <= j < 64 implies (#[trigger] bit(mask, j) <==> j < k + 1
                    && bytes@[base + j] == NEWLINE) by {
                    lemma_bit_or(before, k as u64, j as u64);
                    assert(bit(before, j) <==> j < k && bytes@[base + j] == NEWLINE);
                }
            }
        } else {
            proof {
                assert forall|j: int| 0 <= j < 64 implies (#[trigger] bit(mask, j) <==> j < k + 1
                    && bytes@[base + j] == NEWLINE) by {
                    assert(bit(before, j) <==> j < k && bytes@[base + j] == NEWLINE);
                }
            }
        }
        k += 1;
    }
    mask
}

/// The newline mask of the 16 bytes at `base`: bit `k` is set exactly when
/// byte `base + k` is a newline.
pub fn newline_mask16(bytes: &[u8], base: usize) -> (mask: u16)
    requires
        base + 16 <= bytes.len(),
    ensures
        marks_newlines(mask as u64, bytes@, base as int, 16, base as int),
{
    let wide = scan_mask(bytes, base, 16);
    proof {
        lemma_bit_grow(wide, 16);
    }
    wide as u16
}

/// The newline mask of the 32 bytes at `base`: bit `k` is set exactly when
/// byte `base + k` is a newline.
pub fn newline_mask32(bytes: &[u8], base: usize) -> (mask: u32)
    requires
        base + 32 <= bytes.len(),
    ensures
        marks_newlines(mask as u64, bytes@, base as int, 32, base as int),
{
    let wide = scan_mask(bytes, base, 32);
    proof {
        lemma_bit_grow(wide, 32);
    }
    wide as u32
}

/// The newline mask of the 64 bytes at `base`: bit `k` is set exactly when
/// byte `base + k` is a newline.
pub fn newline_mask64(bytes: &[u8], base: usize) -> (mask: u64)
    requires
        base + 64 <= bytes.len(),
    ensures
        marks_newlines(mask, bytes@, base as int, 64, base as int),
{
    scan_mask(bytes, base, 64)
}

/// The places of the set bits of `mask` below `upto`, in increasing order.
pub open spec fn set_bits(mask: u64, upto: int) -> Seq<int>
    decreases upto,
{
    if upto <= 0 {
        Seq::empty()
    } else if bit(mask, upto - 1) {
        set_bits(mask, upto - 1).push(upto - 1)
    } else {
        set_bits(mask, upto - 1)
    }
}

/// `u64::count_ones` of the standard library, whose documentation says that
/// it returns the number of ones in the binary representation of the value.
/// The contract says so: the result is the number of places at which a bit
/// of the value is set.
pub assume_specification[ u64::count_ones ](i: u64) -> (n: u32)
    ensures
        n == set_bits(i, 64).len(),
;

/// The set bits below `upto` are places below `upto`, each of a set bit, in
/// strictly increasing order.
pub proof fn lemma_set_bits(mask: u64, upto: int)
    requires
        0 <= upto <= 64,
    ensures
        set_bits(mask, upto).len() <= upto,
        forall|j: int|
            0 <= j < set_bits(mask, upto).len() ==> 0 <= #[trigger] set_bits(mask, upto)[j] < upto
                && bit(mask, set_bits(mask, upto)[j]),
        forall|i: int, j: int|
            0 <= i < j < set_bits(mask, upto).len() ==> set_bits(mask, upto)[i] < set_bits(
                mask,
                upto,
            )[j],
    decreases upto,
{
    if upto > 0 {
        lemma_set_bits(mask, upto - 1);
    }
}

/// The offsets at `base + p` for each of the places `p`.
pub open spec fn shifted(places: Seq<int>, base: int) -> Seq<int> {
    Seq::new(places.len(), |j: int| base + places[j])
}

proof fn lemma_mask_offsets_upto(mask: u64, bytes: Seq<u8>, base: int, width: int, k: int)
    requires
        marks_newlines(mask, bytes, base, width, base),
        0 <= k <= width <= 64,
        0 <= base,
        base + width <= bytes.len(),
    ensures
        newline_offsets(bytes, base + k) == newline_offsets(bytes, base) + shifted(
            set_bits(mask, k),
            base,
        ),
    decreases k,
{
    if k > 0 {
        lemma_mask_offsets_upto(mask, bytes, base, width, k - 1);
        assert(bit(mask, k - 1) <==> bytes[base + (k - 1)] == NEWLINE);
    }
    assert(newline_offsets(bytes, base + k) =~= newline_offsets(bytes, base) + shifted(
        set_bits(mask, k),
        base,
    ));
}

proof fn lemma_set_bits_above(mask: u64, bytes: Seq<u8>, base: int, width: int, k: int)
    requires
        marks_newlines(mask, bytes, base, width, base),
        0 <= width <= k <= 64,
    ensures
        set_bits(mask, k) == set_bits(mask, width),
    decreases k,
{
    if k > width {
        lemma_set_bits_above(mask, bytes, base, width, k - 1);
        assert(!bit(mask, k - 1));
    }
}

/// The newlines of a chunk stand where the set bits of its mask say.
pub proof fn lemma_mask_offsets(mask: u64, bytes: Seq<u8>, base: int, width: int)
    requires
        marks_newlines(mask, bytes, base, width, base),
        0 <= width <= 64,
        0 <= base,
        base + width <= bytes.len(),
    ensures
        newline_offsets(bytes, base + width) == newline_offsets(bytes, base) + shifted(
            set_bits(mask, 64),
            base,
        ),
        forall|j: int|
            0 <= j < set_bits(mask, 64).len() ==> 0 <= #[trigger] set_bits(mask, 64)[j] < width,
{
    lemma_mask_offsets_upto(mask, bytes, base, width, width);
    lemma_set_bits_above(mask, bytes, base, width, 64);
    lemma_set_bits(mask, width);
}

/// A chunk closes as many lines as its mask has bits set.
pub proof fn lemma_mask_count(mask: u64, bytes: Seq<u8>, base: int)
    requires
        marks_newlines(mask, bytes, base, 64, base),
        0 <= base,
        base + 64 <= bytes.len(),
    ensures
        closed_lines(bytes, base + 64).len() == closed_lines(bytes, base).len() + set_bits(
            mask,
            64,
        ).len(),
        set_bits(mask, 64).len() <= 64,
{
    lemma_mask_offsets(mask, bytes, base, 64);
    lemma_closed_lines_len(bytes, base);
    lemma_closed_lines_len(bytes, base + 64);
    lemma_set_bits(mask, 64);
}

proof fn lemma_bit_is_one(m: u64, k: u64)
    by (bit_vector)
    ensures
        (m >> k) & 1 != 0 ==> (m >> k) & 1 == 1,
{
}

/// What the highest set bit of the mask of a chunk of 64 bytes stands for:
/// the last newline of the chunk.
pub proof fn lemma_highest_newline(mask: u64, bytes: Seq<u8>, base: int)
    requires
        marks_newlines(mask, bytes, base, 64, base),
        mask != 0,
        0 <= base,
    ensures
        ({
            let h = 63 - u64_leading_zeros(mask);
            &&& 0 <= h < 64
            &&& bytes[base + h] == NEWLINE
            &&& forall|i: int| base + h < i < base + 64 ==> bytes[i] != NEWLINE
        }),
{
    axiom_u64_leading_zeros(mask);
    let h = (63 - u64_leading_zeros(mask)) as u64;
    lemma_bit_is_one(mask, h);
    assert(bit(mask, h as int));
    assert forall|i: int| base + h < i < base + 64 implies bytes[i] != NEWLINE by {
        let j = (i - base) as u64;
        assert((mask >> j) & 1 == 0);
        assert(!bit(mask, i - base));
    }
}

/// Clearing the lowest set bit with a wrapping subtraction does to a mask
/// with a set bit what the plain subtraction does, and leaves a mask without
/// one as it is.
pub proof fn lemma_clear_lowest_wrapping(mask: u64)
    ensures
        mask != 0 ==> mask & mask.wrapping_sub(1) == mask & ((mask - 1) as u64),
        mask == 0 ==> mask & mask.wrapping_sub(1) == 0,
{
    let other = mask.wrapping_sub(1);
    assert(0u64 & other == 0) by (bit_vector);
}

/// The place of the lowest set bit of `mask`, and 0 for a mask without one.
pub fn lowest_bit_or_zero(mask: u64) -> (place: u32)
    ensures
        place == (if mask == 0 {
            0
        } else {
            u64_trailing_zeros(mask)
        }),
{
    if mask == 0 {
        0
    } else {
        mask.trailing_zeros()
    }
}

/// The lanes that `mask` selects, packed into the lowest lanes in their
/// order; the lanes behind them are 0.
pub fn compress(mask: u64, lanes: &[u8; 64]) -> (packed: [u8; 64])
    ensures
        forall|j: int|
            0 <= j < 64 ==> #[trigger] packed@[j] == (if j < set_bits(mask, 64).len() {
                lanes@[set_bits(mask, 64)[j]]
            } else {
                0u8
            }),
{
    let mut packed: [u8; 64] = [0; 64];
    let mut filled: usize = 0;
    let mut k: u64 = 0;
    while k < 64
        invariant
            k <= 64,
            filled == set_bits(mask, k as int).len(),
            filled <= k,
            forall|j: int|
                0 <= j < 64 ==> #[trigger] packed@[j] == (if j < filled {
                    lanes@[set_bits(mask, k as int)[j]]
                } else {
                    0u8
                }),
        decreases 64 - k,
    {
        proof {
            lemma_set_bits(mask, k as int);
        }
        if (mask >> k) & 1 == 1 {
            packed[filled] = lanes[k as usize];
            filled += 1;
        }
        k += 1;
    }
    packed
}

} // verus!
