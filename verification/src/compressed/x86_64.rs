//! Kernels of the compressed family that scan in chunks of a vector register.
//!
//! Each kernel enters the blocks of the input one after the other, takes a
//! block in chunks of 16, 32 or 64 bytes, gets the newline mask of a chunk,
//! and reports the set bits of the mask from the lowest upwards. The bytes
//! behind the last whole chunk of the input are left to the scalar
//! [`tail`](crate::compressed::tail). A kernel is named after the
//! instruction set whose registers are as wide as its chunks or the parts of
//! them: SSE2 for 16 bytes, AVX2 for 32, AVX-512 for 64.
//!
//! The masks come from [`crate::mask`], which finds them without vector
//! instructions, so every kernel gives its result on every machine. The
//! predicates of this module tell for which machines a kernel is meant.
//!
//! All but the first kernel store what they find through a reservation
//! window (see [`crate::window`]).

use crate::compressed::{
    indexed, lemma_block_passed, lemma_indexed_enter, lemma_indexed_push, lemma_indexed_skip,
    lemma_low_bits_add, tail, LineIndex, BLOCK,
};
use crate::cpu::CpuFeatures;
use crate::lines::{
    lemma_newline_offsets_split, lemma_whole_chunks, newline_offsets, newline_offsets_from,
    whole_chunks,
};
use crate::mask::{
    compress, lemma_clear_lowest_wrapping, lemma_join2, lemma_join4, lemma_lowest_newline,
    lemma_lowest_newline16, lemma_lowest_newline32, lemma_mask_offsets,
    lemma_no_newline_left, lemma_set_bits,
    lowest_bit_or_zero, marks_newlines, newline_mask16, newline_mask32, newline_mask64,
    set_bits, shifted,
};
use crate::window::{lemma_staged_keep, lemma_staged_push, WINDOW, WINDOW_SMALL};
use vstd::prelude::*;
use vstd::string::StringSliceAdditionalSpecFns;

verus! {

/// The scan has passed every whole chunk of `chunk` bytes, so what
/// [`tail`](crate::compressed::tail) adds completes the index.
proof fn lemma_tail_completes(
    bytes: Seq<u8>,
    chunk: int,
    blocks: int,
    before: &LineIndex,
    lows: Seq<u16>,
    starts: Seq<usize>,
)
    requires
        0 < chunk,
        indexed(bytes, whole_chunks(bytes.len() as int, chunk), blocks, before, lows, starts),
    ensures
        indexed(
            bytes,
            bytes.len() as int,
            blocks,
            before,
            lows + crate::compressed::low_bits(
                newline_offsets_from(
                    bytes,
                    whole_chunks(bytes.len() as int, chunk),
                    bytes.len() as int,
                ),
            ),
            starts,
        ),
{
    let n = bytes.len() as int;
    let whole = whole_chunks(n, chunk);
    lemma_whole_chunks(n, chunk);
    lemma_newline_offsets_split(bytes, whole, n);
    lemma_low_bits_add(newline_offsets(bytes, whole), newline_offsets_from(bytes, whole, n));
    assert(lows + crate::compressed::low_bits(newline_offsets_from(bytes, whole, n))
        =~= before.lows@ + crate::compressed::low_bits(newline_offsets(bytes, n)));
}

/// How many slots of a window are filled when `write_i` slots were written
/// and the last one of them, if `was_odd`, is to be given up.
spec fn filled(write_i: usize, was_odd: bool) -> int {
    if was_odd {
        write_i - 1
    } else {
        write_i as int
    }
}


/// Appends to `out` the index of `input`, scanning 16 bytes at a time and
/// growing `out.lows` by one offset at a time.
#[verifier::rlimit(40)]
pub fn sse2(input: &str, out: &mut LineIndex)
    ensures
        final(out).extends(old(out), input.spec_bytes()),
{
    let bytes = input.as_bytes();
    let mut block_base: usize = 0;
    let ghost mut blocks: int = 0;
    let ghost mut pos: int = 0;
    proof {
        lemma_whole_chunks(bytes.len() as int, 16);
        assert(out.lows@ =~= old(out).lows@ + crate::compressed::low_bits(
            newline_offsets(bytes@, 0),
        ));
        assert(out.high_starts@ =~= old(out).high_starts@ + crate::compressed::block_starts(
            bytes@,
            0,
            old(out).lows@.len() as int,
        ));
    }
    while block_base < bytes.len()
        invariant
            bytes@ == input.spec_bytes(),
            block_base <= bytes.len(),
            blocks == crate::compressed::block_count(block_base as int),
            block_base < bytes.len() ==> block_base == blocks * 65536 && pos == block_base,
            block_base == bytes.len() ==> pos == whole_chunks(bytes.len() as int, 16),
            indexed(bytes@, pos, blocks, old(out), out.lows@, out.high_starts@),
        decreases bytes.len() - block_base,
    {
        let block_len = if bytes.len() - block_base < BLOCK {
            bytes.len() - block_base
        } else {
            BLOCK
        };
        let start = out.lows.len();
        proof {
            lemma_indexed_enter(bytes@, pos, blocks, old(out), out.lows@, out.high_starts@);
            blocks = blocks + 1;
        }
        out.high_starts.push(start);
        let mut chunk_i: usize = 0;
        let stop_chunk_i = block_len / 16;
        while chunk_i < stop_chunk_i
            invariant
                bytes@ == input.spec_bytes(),
                stop_chunk_i == block_len / 16,
                block_len <= BLOCK,
                block_base + block_len <= bytes.len(),
                block_base == (blocks - 1) * 65536,
                chunk_i <= stop_chunk_i,
                indexed(
                    bytes@,
                    block_base + chunk_i * 16,
                    blocks,
                    old(out),
                    out.lows@,
                    out.high_starts@,
                ),
            decreases stop_chunk_i - chunk_i,
        {
            let mut mask = newline_mask16(bytes, block_base + chunk_i * 16);
            let ghost mut at_pos: int = block_base + chunk_i * 16;
            while mask != 0
                invariant
                    bytes@ == input.spec_bytes(),
                    stop_chunk_i == block_len / 16,
                    block_len <= BLOCK,
                    block_base + block_len <= bytes.len(),
                    block_base == (blocks - 1) * 65536,
                    chunk_i < stop_chunk_i,
                    block_base + chunk_i * 16 <= at_pos <= block_base + chunk_i * 16 + 16,
                    marks_newlines(mask as u64, bytes@, block_base + chunk_i * 16, 16, at_pos),
                    indexed(bytes@, at_pos, blocks, old(out), out.lows@, out.high_starts@),
                decreases block_base + chunk_i * 16 + 16 - at_pos,
            {
                proof {
                    lemma_lowest_newline16(mask, bytes@, block_base + chunk_i * 16, 16, at_pos);
                }
                let bit_pos = mask.trailing_zeros() as u16;
                let low = chunk_i as u16 * 16 + bit_pos;
                proof {
                    let found = block_base + chunk_i * 16 + bit_pos;
                    lemma_indexed_skip(
                        bytes@,
                        at_pos,
                        found,
                        blocks,
                        old(out),
                        out.lows@,
                        out.high_starts@,
                    );
                    lemma_indexed_push(
                        bytes@,
                        found,
                        blocks,
                        old(out),
                        out.lows@,
                        out.high_starts@,
                        low,
                    );
                    at_pos = found + 1;
                }
                out.lows.push(low);
                mask &= mask - 1;
            }
            proof {
                lemma_no_newline_left(mask as u64, bytes@, block_base + chunk_i * 16, 16, at_pos);
                lemma_indexed_skip(
                    bytes@,
                    at_pos,
                    block_base + chunk_i * 16 + 16,
                    blocks,
                    old(out),
                    out.lows@,
                    out.high_starts@,
                );
            }
            chunk_i += 1;
        }
        proof {
            lemma_block_passed(
                bytes.len() as int,
                block_base as int,
                block_len as int,
                blocks - 1,
                16,
            );
            pos = block_base + stop_chunk_i * 16;
        }
        block_base += block_len;
    }
    proof {
        lemma_tail_completes(bytes@, 16, blocks, old(out), out.lows@, out.high_starts@);
    }
    tail(16, input, out);
}

/// Appends to `out` the index of `input`, scanning 16 bytes at a time.
#[verifier::rlimit(40)]
pub fn sse2_unroll(input: &str, out: &mut LineIndex)
    ensures
        final(out).extends(old(out), input.spec_bytes()),
{
    let bytes = input.as_bytes();
    let mut block_base: usize = 0;
    let ghost mut blocks: int = 0;
    let ghost mut pos: int = 0;
    proof {
        lemma_whole_chunks(bytes.len() as int, 16);
        assert(out.lows@ =~= old(out).lows@ + crate::compressed::low_bits(
            newline_offsets(bytes@, 0),
        ));
        assert(out.high_starts@ =~= old(out).high_starts@ + crate::compressed::block_starts(
            bytes@,
            0,
            old(out).lows@.len() as int,
        ));
    }
    while block_base < bytes.len()
        invariant
            bytes@ == input.spec_bytes(),
            block_base <= bytes.len(),
            blocks == crate::compressed::block_count(block_base as int),
            block_base < bytes.len() ==> block_base == blocks * 65536 && pos == block_base,
            block_base == bytes.len() ==> pos == whole_chunks(bytes.len() as int, 16),
            indexed(bytes@, pos, blocks, old(out), out.lows@, out.high_starts@),
        decreases bytes.len() - block_base,
    {
        let block_len = if bytes.len() - block_base < BLOCK {
            bytes.len() - block_base
        } else {
            BLOCK
        };
        let start = out.lows.len();
        proof {
            lemma_indexed_enter(bytes@, pos, blocks, old(out), out.lows@, out.high_starts@);
            blocks = blocks + 1;
        }
        out.high_starts.push(start);
        let mut chunk_i: usize = 0;
        let stop_chunk_i = block_len / 16;
        while chunk_i < stop_chunk_i
            invariant
                bytes@ == input.spec_bytes(),
                stop_chunk_i == block_len / 16,
                block_len <= BLOCK,
                block_base + block_len <= bytes.len(),
                block_base == (blocks - 1) * 65536,
                chunk_i <= stop_chunk_i,
                indexed(
                    bytes@,
                    block_base + chunk_i * 16,
                    blocks,
                    old(out),
                    out.lows@,
                    out.high_starts@,
                ),
            decreases stop_chunk_i - chunk_i,
        {
            let mut write_i: usize = 0;
            out.lows.reserve(WINDOW_SMALL);
            let mut window: [u16; WINDOW_SMALL] = [0; WINDOW_SMALL];
            let ghost entered = chunk_i;
            assert(out.lows@ + window@.subrange(0, 0) =~= out.lows@);
            while write_i <= (WINDOW_SMALL - 16) && chunk_i < stop_chunk_i
                invariant
                    bytes@ == input.spec_bytes(),
                    stop_chunk_i == block_len / 16,
                    block_len <= BLOCK,
                    block_base + block_len <= bytes.len(),
                    block_base == (blocks - 1) * 65536,
                    entered <= chunk_i <= stop_chunk_i,
                    chunk_i == entered ==> write_i == 0,
                    write_i <= WINDOW_SMALL,
                    indexed(
                        bytes@,
                        block_base + chunk_i * 16,
                        blocks,
                        old(out),
                        out.lows@ + window@.subrange(0, write_i as int),
                        out.high_starts@,
                    ),
                decreases stop_chunk_i - chunk_i,
            {
                let mut mask = newline_mask16(bytes, block_base + chunk_i * 16);
                let ghost mut at_pos: int = block_base + chunk_i * 16;
                let ghost first = write_i;
                while mask != 0
                    invariant
                        bytes@ == input.spec_bytes(),
                        stop_chunk_i == block_len / 16,
                        block_len <= BLOCK,
                        block_base + block_len <= bytes.len(),
                        block_base == (blocks - 1) * 65536,
                        chunk_i < stop_chunk_i,
                        block_base + chunk_i * 16 <= at_pos <= block_base + chunk_i * 16 + 16,
                        first <= WINDOW_SMALL - 16,
                        first <= write_i <= first + (at_pos - (block_base + chunk_i * 16)),
                        marks_newlines(mask as u64, bytes@, block_base + chunk_i * 16, 16, at_pos),
                        indexed(
                            bytes@,
                            at_pos,
                            blocks,
                            old(out),
                            out.lows@ + window@.subrange(0, write_i as int),
                            out.high_starts@,
                        ),
                    decreases block_base + chunk_i * 16 + 16 - at_pos,
                {
                    proof {
                        lemma_lowest_newline16(mask, bytes@, block_base + chunk_i * 16, 16, at_pos);
                    }
                    let bit_pos = mask.trailing_zeros() as u16;
                    let low = chunk_i as u16 * 16 + bit_pos;
                    proof {
                        let found = block_base + chunk_i * 16 + bit_pos;
                        let staged = out.lows@ + window@.subrange(0, write_i as int);
                        lemma_indexed_skip(
                            bytes@,
                            at_pos,
                            found,
                            blocks,
                            old(out),
                            staged,
                            out.high_starts@,
                        );
                        lemma_indexed_push(
                            bytes@,
                            found,
                            blocks,
                            old(out),
                            staged,
                            out.high_starts@,
                            low,
                        );
                        lemma_staged_push(out.lows@, window@, write_i as int, low);
                        at_pos = found + 1;
                    }
                    window[write_i] = low;
                    write_i += 1;
                    mask &= mask - 1;
                }
                proof {
                    lemma_no_newline_left(mask as u64, bytes@, block_base + chunk_i * 16, 16, at_pos);
                    lemma_indexed_skip(
                        bytes@,
                        at_pos,
                        block_base + chunk_i * 16 + 16,
                        blocks,
                        old(out),
                        out.lows@ + window@.subrange(0, write_i as int),
                        out.high_starts@,
                    );
                }
                chunk_i += 1;
            }
            let ghost held = out.lows@;
            out.lows.extend_from_slice(&window[0..write_i]);
            assert(out.lows@ =~= held + window@.subrange(0, write_i as int));
        }
        proof {
            lemma_block_passed(
                bytes.len() as int,
                block_base as int,
                block_len as int,
                blocks - 1,
                16,
            );
            pos = block_base + stop_chunk_i * 16;
        }
        block_base += block_len;
    }
    proof {
        lemma_tail_completes(bytes@, 16, blocks, old(out), out.lows@, out.high_starts@);
    }
    tail(16, input, out);
}

/// Appends to `out` the index of `input`, scanning 64 bytes at a time: four
/// masks of 16 bytes are joined into one of 64 bits.
#[verifier::rlimit(40)]
pub fn sse2_unrollx4(input: &str, out: &mut LineIndex)
    ensures
        final(out).extends(old(out), input.spec_bytes()),
{
    let bytes = input.as_bytes();
    let mut block_base: usize = 0;
    let ghost mut blocks: int = 0;
    let ghost mut pos: int = 0;
    proof {
        lemma_whole_chunks(bytes.len() as int, 64);
        assert(out.lows@ =~= old(out).lows@ + crate::compressed::low_bits(
            newline_offsets(bytes@, 0),
        ));
        assert(out.high_starts@ =~= old(out).high_starts@ + crate::compressed::block_starts(
            bytes@,
            0,
            old(out).lows@.len() as int,
        ));
    }
    while block_base < bytes.len()
        invariant
            bytes@ == input.spec_bytes(),
            block_base <= bytes.len(),
            blocks == crate::compressed::block_count(block_base as int),
            block_base < bytes.len() ==> block_base == blocks * 65536 && pos == block_base,
            block_base == bytes.len() ==> pos == whole_chunks(bytes.len() as int, 64),
            indexed(bytes@, pos, blocks, old(out), out.lows@, out.high_starts@),
        decreases bytes.len() - block_base,
    {
        let block_len = if bytes.len() - block_base < BLOCK {
            bytes.len() - block_base
        } else {
            BLOCK
        };
        let start = out.lows.len();
        proof {
            lemma_indexed_enter(bytes@, pos, blocks, old(out), out.lows@, out.high_starts@);
            blocks = blocks + 1;
        }
        out.high_starts.push(start);
        let mut chunk_i: usize = 0;
        let stop_chunk_i = block_len / 64;
        while chunk_i < stop_chunk_i
            invariant
                bytes@ == input.spec_bytes(),
                stop_chunk_i == block_len / 64,
                block_len <= BLOCK,
                block_base + block_len <= bytes.len(),
                block_base == (blocks - 1) * 65536,
                chunk_i <= stop_chunk_i,
                indexed(
                    bytes@,
                    block_base + chunk_i * 64,
                    blocks,
                    old(out),
                    out.lows@,
                    out.high_starts@,
                ),
            decreases stop_chunk_i - chunk_i,
        {
            let mut write_i: usize = 0;
            out.lows.reserve(WINDOW);
            let mut window: [u16; WINDOW] = [0; WINDOW];
            let ghost entered = chunk_i;
            assert(out.lows@ + window@.subrange(0, 0) =~= out.lows@);
            while write_i <= (WINDOW - 64) && chunk_i < stop_chunk_i
                invariant
                    bytes@ == input.spec_bytes(),
                    stop_chunk_i == block_len / 64,
                    block_len <= BLOCK,
                    block_base + block_len <= bytes.len(),
                    block_base == (blocks - 1) * 65536,
                    entered <= chunk_i <= stop_chunk_i,
                    chunk_i == entered ==> write_i == 0,
                    write_i <= WINDOW,
                    indexed(
                        bytes@,
                        block_base + chunk_i * 64,
                        blocks,
                        old(out),
                        out.lows@ + window@.subrange(0, write_i as int),
                        out.high_starts@,
                    ),
                decreases stop_chunk_i - chunk_i,
            {
                let at = block_base + chunk_i * 64;
                let mask0 = newline_mask16(bytes, at);
                let mask1 = newline_mask16(bytes, at + 16);
                let mask2 = newline_mask16(bytes, at + 32);
                let mask3 = newline_mask16(bytes, at + 48);
                let mut mask = (mask0 as u64) | ((mask1 as u64) << 16) | ((mask2 as u64) << 32) | ((mask3
                    as u64) << 48);
                proof {
                    lemma_join4(mask0, mask1, mask2, mask3, bytes@, at as int);
                }
                let ghost mut at_pos: int = block_base + chunk_i * 64;
                let ghost first = write_i;
                while mask != 0
                    invariant
                        bytes@ == input.spec_bytes(),
                        stop_chunk_i == block_len / 64,
                        block_len <= BLOCK,
                        block_base + block_len <= bytes.len(),
                        block_base == (blocks - 1) * 65536,
                        chunk_i < stop_chunk_i,
                        block_base + chunk_i * 64 <= at_pos <= block_base + chunk_i * 64 + 64,
                        first <= WINDOW - 64,
                        first <= write_i <= first + (at_pos - (block_base + chunk_i * 64)),
                        marks_newlines(mask, bytes@, block_base + chunk_i * 64, 64, at_pos),
                        indexed(
                            bytes@,
                            at_pos,
                            blocks,
                            old(out),
                            out.lows@ + window@.subrange(0, write_i as int),
                            out.high_starts@,
                        ),
                    decreases block_base + chunk_i * 64 + 64 - at_pos,
                {
                    proof {
                        lemma_lowest_newline(mask, bytes@, block_base + chunk_i * 64, 64, at_pos);
                    }
                    let bit_pos = mask.trailing_zeros() as u16;
                    let low = chunk_i as u16 * 64 + bit_pos;
                    proof {
                        let found = block_base + chunk_i * 64 + bit_pos;
                        let staged = out.lows@ + window@.subrange(0, write_i as int);
                        lemma_indexed_skip(
                            bytes@,
                            at_pos,
                            found,
                            blocks,
                            old(out),
                            staged,
                            out.high_starts@,
                        );
                        lemma_indexed_push(
                            bytes@,
                            found,
                            blocks,
                            old(out),
                            staged,
                            out.high_starts@,
                            low,
                        );
                        lemma_staged_push(out.lows@, window@, write_i as int, low);
                        at_pos = found + 1;
                    }
                    window[write_i] = low;
                    write_i += 1;
                    mask &= mask - 1;
                }
                proof {
                    lemma_no_newline_left(mask, bytes@, block_base + chunk_i * 64, 64, at_pos);
                    lemma_indexed_skip(
                        bytes@,
                        at_pos,
                        block_base + chunk_i * 64 + 64,
                        blocks,
                        old(out),
                        out.lows@ + window@.subrange(0, write_i as int),
                        out.high_starts@,
                    );
                }
                chunk_i += 1;
            }
            let ghost held = out.lows@;
            out.lows.extend_from_slice(&window[0..write_i]);
            assert(out.lows@ =~= held + window@.subrange(0, write_i as int));
        }
        proof {
            lemma_block_passed(
                bytes.len() as int,
                block_base as int,
                block_len as int,
                blocks - 1,
                64,
            );
            pos = block_base + stop_chunk_i * 64;
        }
        block_base += block_len;
    }
    proof {
        lemma_tail_completes(bytes@, 64, blocks, old(out), out.lows@, out.high_starts@);
    }
    tail(64, input, out);
}

/// Appends to `out` the index of `input`, scanning 64 bytes at a time as
/// [`sse2_unrollx4`] does, and taking two bits from the mask in each round.
/// When the mask runs out after the first of the two, the second store puts a
/// value of no meaning into the slot behind the filled part of the window,
/// and the slot is given up after the round.
#[verifier::rlimit(40)]
pub fn sse2_unrollx4_ya(input: &str, out: &mut LineIndex)
    ensures
        final(out).extends(old(out), input.spec_bytes()),
{
    let bytes = input.as_bytes();
    let mut block_base: usize = 0;
    let ghost mut blocks: int = 0;
    let ghost mut pos: int = 0;
    proof {
        lemma_whole_chunks(bytes.len() as int, 64);
        assert(out.lows@ =~= old(out).lows@ + crate::compressed::low_bits(
            newline_offsets(bytes@, 0),
        ));
        assert(out.high_starts@ =~= old(out).high_starts@ + crate::compressed::block_starts(
            bytes@,
            0,
            old(out).lows@.len() as int,
        ));
    }
    while block_base < bytes.len()
        invariant
            bytes@ == input.spec_bytes(),
            block_base <= bytes.len(),
            blocks == crate::compressed::block_count(block_base as int),
            block_base < bytes.len() ==> block_base == blocks * 65536 && pos == block_base,
            block_base == bytes.len() ==> pos == whole_chunks(bytes.len() as int, 64),
            indexed(bytes@, pos, blocks, old(out), out.lows@, out.high_starts@),
        decreases bytes.len() - block_base,
    {
        let block_len = if bytes.len() - block_base < BLOCK {
            bytes.len() - block_base
        } else {
            BLOCK
        };
        let start = out.lows.len();
        proof {
            lemma_indexed_enter(bytes@, pos, blocks, old(out), out.lows@, out.high_starts@);
            blocks = blocks + 1;
        }
        out.high_starts.push(start);
        let mut chunk_i: usize = 0;
        let stop_chunk_i = block_len / 64;
        while chunk_i < stop_chunk_i
            invariant
                bytes@ == input.spec_bytes(),
                stop_chunk_i == block_len / 64,
                block_len <= BLOCK,
                block_base + block_len <= bytes.len(),
                block_base == (blocks - 1) * 65536,
                chunk_i <= stop_chunk_i,
                indexed(
                    bytes@,
                    block_base + chunk_i * 64,
                    blocks,
                    old(out),
                    out.lows@,
                    out.high_starts@,
                ),
            decreases stop_chunk_i - chunk_i,
        {
            let mut write_i: usize = 0;
            out.lows.reserve(WINDOW);
            let mut window: [u16; WINDOW] = [0; WINDOW];
            let ghost entered = chunk_i;
            assert(out.lows@ + window@.subrange(0, 0) =~= out.lows@);
            while write_i <= (WINDOW - 64) && chunk_i < stop_chunk_i
                invariant
                    bytes@ == input.spec_bytes(),
                    stop_chunk_i == block_len / 64,
                    block_len <= BLOCK,
                    block_base + block_len <= bytes.len(),
                    block_base == (blocks - 1) * 65536,
                    entered <= chunk_i <= stop_chunk_i,
                    chunk_i == entered ==> write_i == 0,
                    write_i <= WINDOW,
                    indexed(
                        bytes@,
                        block_base + chunk_i * 64,
                        blocks,
                        old(out),
                        out.lows@ + window@.subrange(0, write_i as int),
                        out.high_starts@,
                    ),
                decreases stop_chunk_i - chunk_i,
            {
                let at = block_base + chunk_i * 64;
                let mask0 = newline_mask16(bytes, at);
                let mask1 = newline_mask16(bytes, at + 16);
                let mask2 = newline_mask16(bytes, at + 32);
                let mask3 = newline_mask16(bytes, at + 48);
                let mut mask = (mask0 as u64) | ((mask1 as u64) << 16) | ((mask2 as u64) << 32) | ((mask3
                    as u64) << 48);
                proof {
                    lemma_join4(mask0, mask1, mask2, mask3, bytes@, at as int);
                }
                let ghost mut at_pos: int = block_base + chunk_i * 64;
                let ghost first = write_i;
                let mut was_odd = false;
                while mask != 0
                    invariant
                        bytes@ == input.spec_bytes(),
                        stop_chunk_i == block_len / 64,
                        block_len <= BLOCK,
                        block_base + block_len <= bytes.len(),
                        block_base == (blocks - 1) * 65536,
                        chunk_i < stop_chunk_i,
                        block_base + chunk_i * 64 <= at_pos <= block_base + chunk_i * 64 + 64,
                        first <= WINDOW - 64,
                        was_odd ==> mask == 0 && write_i > first,
                        first <= filled(write_i, was_odd) <= first + (at_pos - (block_base + chunk_i
                            * 64)),
                        (write_i - first) % 2 == 0,
                        marks_newlines(mask, bytes@, block_base + chunk_i * 64, 64, at_pos),
                        indexed(
                            bytes@,
                            at_pos,
                            blocks,
                            old(out),
                            out.lows@ + window@.subrange(0, filled(write_i, was_odd)),
                            out.high_starts@,
                        ),
                    decreases block_base + chunk_i * 64 + 64 - at_pos,
                {
                    proof {
                        lemma_lowest_newline(mask, bytes@, block_base + chunk_i * 64, 64, at_pos);
                    }
                    let bit_pos = mask.trailing_zeros() as u16;
                    let low = chunk_i as u16 * 64 + bit_pos;
                    proof {
                        let found = block_base + chunk_i * 64 + bit_pos;
                        let staged = out.lows@ + window@.subrange(0, write_i as int);
                        lemma_indexed_skip(
                            bytes@,
                            at_pos,
                            found,
                            blocks,
                            old(out),
                            staged,
                            out.high_starts@,
                        );
                        lemma_indexed_push(
                            bytes@,
                            found,
                            blocks,
                            old(out),
                            staged,
                            out.high_starts@,
                            low,
                        );
                        lemma_staged_push(out.lows@, window@, write_i as int, low);
                        at_pos = found + 1;
                    }
                    window[write_i] = low;
                    mask &= mask - 1;

                    let bit_pos = lowest_bit_or_zero(mask) as u16;
                    let low = chunk_i as u16 * 64 + bit_pos;
                    proof {
                        if mask != 0 {
                            lemma_lowest_newline(mask, bytes@, block_base + chunk_i * 64, 64, at_pos);
                            let found = block_base + chunk_i * 64 + bit_pos;
                            let staged = out.lows@ + window@.subrange(0, write_i + 1);
                            lemma_indexed_skip(
                                bytes@,
                                at_pos,
                                found,
                                blocks,
                                old(out),
                                staged,
                                out.high_starts@,
                            );
                            lemma_indexed_push(
                                bytes@,
                                found,
                                blocks,
                                old(out),
                                staged,
                                out.high_starts@,
                                low,
                            );
                            lemma_staged_push(out.lows@, window@, write_i + 1, low);
                            at_pos = found + 1;
                        } else {
                            lemma_staged_keep(out.lows@, window@, write_i + 1, write_i + 1, low);
                        }
                    }
                    window[write_i + 1] = low;
                    write_i += 2;
                    was_odd = mask == 0;
                    proof {
                        lemma_clear_lowest_wrapping(mask);
                    }
                    mask &= mask.wrapping_sub(1);
                }
                if was_odd {
                    write_i -= 1;
                }
                proof {
                    lemma_no_newline_left(mask, bytes@, block_base + chunk_i * 64, 64, at_pos);
                    lemma_indexed_skip(
                        bytes@,
                        at_pos,
                        block_base + chunk_i * 64 + 64,
                        blocks,
                        old(out),
                        out.lows@ + window@.subrange(0, write_i as int),
                        out.high_starts@,
                    );
                }
                chunk_i += 1;
            }
            let ghost held = out.lows@;
            out.lows.extend_from_slice(&window[0..write_i]);
            assert(out.lows@ =~= held + window@.subrange(0, write_i as int));
        }
        proof {
            lemma_block_passed(
                bytes.len() as int,
                block_base as int,
                block_len as int,
                blocks - 1,
                64,
            );
            pos = block_base + stop_chunk_i * 64;
        }
        block_base += block_len;
    }
    proof {
        lemma_tail_completes(bytes@, 64, blocks, old(out), out.lows@, out.high_starts@);
    }
    tail(64, input, out);
}

/// Whether the kernels of this module with masks of 32 bytes are meant for
/// a machine with these features: it has to offer AVX2.
pub fn can_run_avx2(cpu: &CpuFeatures) -> (ok: bool)
    ensures
        ok == cpu.avx2,
{
    cpu.avx2
}

/// Appends to `out` the index of `input`, scanning 32 bytes at a time.
#[verifier::rlimit(40)]
pub fn avx2_unroll(input: &str, out: &mut LineIndex)
    ensures
        final(out).extends(old(out), input.spec_bytes()),
{
    let bytes = input.as_bytes();
    let mut block_base: usize = 0;
    let ghost mut blocks: int = 0;
    let ghost mut pos: int = 0;
    proof {
        lemma_whole_chunks(bytes.len() as int, 32);
        assert(out.lows@ =~= old(out).lows@ + crate::compressed::low_bits(
            newline_offsets(bytes@, 0),
        ));
        assert(out.high_starts@ =~= old(out).high_starts@ + crate::compressed::block_starts(
            bytes@,
            0,
            old(out).lows@.len() as int,
        ));
    }
    while block_base < bytes.len()
        invariant
            bytes@ == input.spec_bytes(),
            block_base <= bytes.len(),
            blocks == crate::compressed::block_count(block_base as int),
            block_base < bytes.len() ==> block_base == blocks * 65536 && pos == block_base,
            block_base == bytes.len() ==> pos == whole_chunks(bytes.len() as int, 32),
            indexed(bytes@, pos, blocks, old(out), out.lows@, out.high_starts@),
        decreases bytes.len() - block_base,
    {
        let block_len = if bytes.len() - block_base < BLOCK {
            bytes.len() - block_base
        } else {
            BLOCK
        };
        let start = out.lows.len();
        proof {
            lemma_indexed_enter(bytes@, pos, blocks, old(out), out.lows@, out.high_starts@);
            blocks = blocks + 1;
        }
        out.high_starts.push(start);
        let mut chunk_i: usize = 0;
        let stop_chunk_i = block_len / 32;
        while chunk_i < stop_chunk_i
            invariant
                bytes@ == input.spec_bytes(),
                stop_chunk_i == block_len / 32,
                block_len <= BLOCK,
                block_base + block_len <= bytes.len(),
                block_base == (blocks - 1) * 65536,
                chunk_i <= stop_chunk_i,
                indexed(
                    bytes@,
                    block_base + chunk_i * 32,
                    blocks,
                    old(out),
                    out.lows@,
                    out.high_starts@,
                ),
            decreases stop_chunk_i - chunk_i,
        {
            let mut write_i: usize = 0;
            out.lows.reserve(WINDOW);
            let mut window: [u16; WINDOW] = [0; WINDOW];
            let ghost entered = chunk_i;
            assert(out.lows@ + window@.subrange(0, 0) =~= out.lows@);
            while write_i <= (WINDOW - 32) && chunk_i < stop_chunk_i
                invariant
                    bytes@ == input.spec_bytes(),
                    stop_chunk_i == block_len / 32,
                    block_len <= BLOCK,
                    block_base + block_len <= bytes.len(),
                    block_base == (blocks - 1) * 65536,
                    entered <= chunk_i <= stop_chunk_i,
                    chunk_i == entered ==> write_i == 0,
                    write_i <= WINDOW,
                    indexed(
                        bytes@,
                        block_base + chunk_i * 32,
                        blocks,
                        old(out),
                        out.lows@ + window@.subrange(0, write_i as int),
                        out.high_starts@,
                    ),
                decreases stop_chunk_i - chunk_i,
            {
                let mut mask = newline_mask32(bytes, block_base + chunk_i * 32);
                let ghost mut at_pos: int = block_base + chunk_i * 32;
                let ghost first = write_i;
                while mask != 0
                    invariant
                        bytes@ == input.spec_bytes(),
                        stop_chunk_i == block_len / 32,
                        block_len <= BLOCK,
                        block_base + block_len <= bytes.len(),
                        block_base == (blocks - 1) * 65536,
                        chunk_i < stop_chunk_i,
                        block_base + chunk_i * 32 <= at_pos <= block_base + chunk_i * 32 + 32,
                        first <= WINDOW - 32,
                        first <= write_i <= first + (at_pos - (block_base + chunk_i * 32)),
                        marks_newlines(mask as u64, bytes@, block_base + chunk_i * 32, 32, at_pos),
                        indexed(
                            bytes@,
                            at_pos,
                            blocks,
                            old(out),
                            out.lows@ + window@.subrange(0, write_i as int),
                            out.high_starts@,
                        ),
                    decreases block_base + chunk_i * 32 + 32 - at_pos,
                {
                    proof {
                        lemma_lowest_newline32(mask, bytes@, block_base + chunk_i * 32, 32, at_pos);
                    }
                    let bit_pos = mask.trailing_zeros() as u16;
                    let low = chunk_i as u16 * 32 + bit_pos;
                    proof {
                        let found = block_base + chunk_i * 32 + bit_pos;
                        let staged = out.lows@ + window@.subrange(0, write_i as int);
                        lemma_indexed_skip(
                            bytes@,
                            at_pos,
                            found,
                            blocks,
                            old(out),
                            staged,
                            out.high_starts@,
                        );
                        lemma_indexed_push(
                            bytes@,
                            found,
                            blocks,
                            old(out),
                            staged,
                            out.high_starts@,
                            low,
                        );
                        lemma_staged_push(out.lows@, window@, write_i as int, low);
                        at_pos = found + 1;
                    }
                    window[write_i] = low;
                    write_i += 1;
                    mask &= mask - 1;
                }
                proof {
                    lemma_no_newline_left(mask as u64, bytes@, block_base + chunk_i * 32, 32, at_pos);
                    lemma_indexed_skip(
                        bytes@,
                        at_pos,
                        block_base + chunk_i * 32 + 32,
                        blocks,
                        old(out),
                        out.lows@ + window@.subrange(0, write_i as int),
                        out.high_starts@,
                    );
                }
                chunk_i += 1;
            }
            let ghost held = out.lows@;
            out.lows.extend_from_slice(&window[0..write_i]);
            assert(out.lows@ =~= held + window@.subrange(0, write_i as int));
        }
        proof {
            lemma_block_passed(
                bytes.len() as int,
                block_base as int,
                block_len as int,
                blocks - 1,
                32,
            );
            pos = block_base + stop_chunk_i * 32;
        }
        block_base += block_len;
    }
    proof {
        lemma_tail_completes(bytes@, 32, blocks, old(out), out.lows@, out.high_starts@);
    }
    tail(32, input, out);
}

/// Appends to `out` the index of `input`, scanning 64 bytes at a time: two
/// masks of 32 bytes are joined into one of 64 bits.
#[verifier::rlimit(40)]
pub fn avx2_unrollx2(input: &str, out: &mut LineIndex)
    ensures
        final(out).extends(old(out), input.spec_bytes()),
{
    let bytes = input.as_bytes();
    let mut block_base: usize = 0;
    let ghost mut blocks: int = 0;
    let ghost mut pos: int = 0;
    proof {
        lemma_whole_chunks(bytes.len() as int, 64);
        assert(out.lows@ =~= old(out).lows@ + crate::compressed::low_bits(
            newline_offsets(bytes@, 0),
        ));
        assert(out.high_starts@ =~= old(out).high_starts@ + crate::compressed::block_starts(
            bytes@,
            0,
            old(out).lows@.len() as int,
        ));
    }
    while block_base < bytes.len()
        invariant
            bytes@ == input.spec_bytes(),
            block_base <= bytes.len(),
            blocks == crate::compressed::block_count(block_base as int),
            block_base < bytes.len() ==> block_base == blocks * 65536 && pos == block_base,
            block_base == bytes.len() ==> pos == whole_chunks(bytes.len() as int, 64),
            indexed(bytes@, pos, blocks, old(out), out.lows@, out.high_starts@),
        decreases bytes.len() - block_base,
    {
        let block_len = if bytes.len() - block_base < BLOCK {
            bytes.len() - block_base
        } else {
            BLOCK
        };
        let start = out.lows.len();
        proof {
            lemma_indexed_enter(bytes@, pos, blocks, old(out), out.lows@, out.high_starts@);
            blocks = blocks + 1;
        }
        out.high_starts.push(start);
        let mut chunk_i: usize = 0;
        let stop_chunk_i = block_len / 64;
        while chunk_i < stop_chunk_i
            invariant
                bytes@ == input.spec_bytes(),
                stop_chunk_i == block_len / 64,
                block_len <= BLOCK,
                block_base + block_len <= bytes.len(),
                block_base == (blocks - 1) * 65536,
                chunk_i <= stop_chunk_i,
                indexed(
                    bytes@,
                    block_base + chunk_i * 64,
                    blocks,
                    old(out),
                    out.lows@,
                    out.high_starts@,
                ),
            decreases stop_chunk_i - chunk_i,
        {
            let mut write_i: usize = 0;
            out.lows.reserve(WINDOW);
            let mut window: [u16; WINDOW] = [0; WINDOW];
            let ghost entered = chunk_i;
            assert(out.lows@ + window@.subrange(0, 0) =~= out.lows@);
            while write_i <= (WINDOW - 64) && chunk_i < stop_chunk_i
                invariant
                    bytes@ == input.spec_bytes(),
                    stop_chunk_i == block_len / 64,
                    block_len <= BLOCK,
                    block_base + block_len <= bytes.len(),
                    block_base == (blocks - 1) * 65536,
                    entered <= chunk_i <= stop_chunk_i,
                    chunk_i == entered ==> write_i == 0,
                    write_i <= WINDOW,
                    indexed(
                        bytes@,
                        block_base + chunk_i * 64,
                        blocks,
                        old(out),
                        out.lows@ + window@.subrange(0, write_i as int),
                        out.high_starts@,
                    ),
                decreases stop_chunk_i - chunk_i,
            {
                let at = block_base + chunk_i * 64;
                let mask0 = newline_mask32(bytes, at);
                let mask1 = newline_mask32(bytes, at + 32);
                let mut mask = ((mask1 as u64) << 32) | (mask0 as u64);
                proof {
                    lemma_join2(mask0, mask1, bytes@, at as int);
                }
                let ghost mut at_pos: int = block_base + chunk_i * 64;
                let ghost first = write_i;
                while mask != 0
                    invariant
                        bytes@ == input.spec_bytes(),
                        stop_chunk_i == block_len / 64,
                        block_len <= BLOCK,
                        block_base + block_len <= bytes.len(),
                        block_base == (blocks - 1) * 65536,
                        chunk_i < stop_chunk_i,
                        block_base + chunk_i * 64 <= at_pos <= block_base + chunk_i * 64 + 64,
                        first <= WINDOW - 64,
                        first <= write_i <= first + (at_pos - (block_base + chunk_i * 64)),
                        marks_newlines(mask, bytes@, block_base + chunk_i * 64, 64, at_pos),
                        indexed(
                            bytes@,
                            at_pos,
                            blocks,
                            old(out),
                            out.lows@ + window@.subrange(0, write_i as int),
                            out.high_starts@,
                        ),
                    decreases block_base + chunk_i * 64 + 64 - at_pos,
                {
                    proof {
                        lemma_lowest_newline(mask, bytes@, block_base + chunk_i * 64, 64, at_pos);
                    }
                    let bit_pos = mask.trailing_zeros() as u16;
                    let low = chunk_i as u16 * 64 + bit_pos;
                    proof {
                        let found = block_base + chunk_i * 64 + bit_pos;
                        let staged = out.lows@ + window@.subrange(0, write_i as int);
                        lemma_indexed_skip(
                            bytes@,
                            at_pos,
                            found,
                            blocks,
                            old(out),
                            staged,
                            out.high_starts@,
                        );
                        lemma_indexed_push(
                            bytes@,
                            found,
                            blocks,
                            old(out),
                            staged,
                            out.high_starts@,
                            low,
                        );
                        lemma_staged_push(out.lows@, window@, write_i as int, low);
                        at_pos = found + 1;
                    }
                    window[write_i] = low;
                    write_i += 1;
                    mask &= mask - 1;
                }
                proof {
                    lemma_no_newline_left(mask, bytes@, block_base + chunk_i * 64, 64, at_pos);
                    lemma_indexed_skip(
                        bytes@,
                        at_pos,
                        block_base + chunk_i * 64 + 64,
                        blocks,
                        old(out),
                        out.lows@ + window@.subrange(0, write_i as int),
                        out.high_starts@,
                    );
                }
                chunk_i += 1;
            }
            let ghost held = out.lows@;
            out.lows.extend_from_slice(&window[0..write_i]);
            assert(out.lows@ =~= held + window@.subrange(0, write_i as int));
        }
        proof {
            lemma_block_passed(
                bytes.len() as int,
                block_base as int,
                block_len as int,
                blocks - 1,
                64,
            );
            pos = block_base + stop_chunk_i * 64;
        }
        block_base += block_len;
    }
    proof {
        lemma_tail_completes(bytes@, 64, blocks, old(out), out.lows@, out.high_starts@);
    }
    tail(64, input, out);
}

/// Appends to `out` the index of `input`, scanning 64 bytes at a time as
/// [`avx2_unrollx2`] does, and taking two bits from the mask in each round,
/// as [`sse2_unrollx4_ya`] does.
#[verifier::rlimit(40)]
pub fn avx2_unrollx2_ya(input: &str, out: &mut LineIndex)
    ensures
        final(out).extends(old(out), input.spec_bytes()),
{
    let bytes = input.as_bytes();
    let mut block_base: usize = 0;
    let ghost mut blocks: int = 0;
    let ghost mut pos: int = 0;
    proof {
        lemma_whole_chunks(bytes.len() as int, 64);
        assert(out.lows@ =~= old(out).lows@ + crate::compressed::low_bits(
            newline_offsets(bytes@, 0),
        ));
        assert(out.high_starts@ =~= old(out).high_starts@ + crate::compressed::block_starts(
            bytes@,
            0,
            old(out).lows@.len() as int,
        ));
    }
    while block_base < bytes.len()
        invariant
            bytes@ == input.spec_bytes(),
            block_base <= bytes.len(),
            blocks == crate::compressed::block_count(block_base as int),
            block_base < bytes.len() ==> block_base == blocks * 65536 && pos == block_base,
            block_base == bytes.len() ==> pos == whole_chunks(bytes.len() as int, 64),
            indexed(bytes@, pos, blocks, old(out), out.lows@, out.high_starts@),
        decreases bytes.len() - block_base,
    {
        let block_len = if bytes.len() - block_base < BLOCK {
            bytes.len() - block_base
        } else {
            BLOCK
        };
        let start = out.lows.len();
        proof {
            lemma_indexed_enter(bytes@, pos, blocks, old(out), out.lows@, out.high_starts@);
            blocks = blocks + 1;
        }
        out.high_starts.push(start);
        let mut chunk_i: usize = 0;
        let stop_chunk_i = block_len / 64;
        while chunk_i < stop_chunk_i
            invariant
                bytes@ == input.spec_bytes(),
                stop_chunk_i == block_len / 64,
                block_len <= BLOCK,
                block_base + block_len <= bytes.len(),
                block_base == (blocks - 1) * 65536,
                chunk_i <= stop_chunk_i,
                indexed(
                    bytes@,
                    block_base + chunk_i * 64,
                    blocks,
                    old(out),
                    out.lows@,
                    out.high_starts@,
                ),
            decreases stop_chunk_i - chunk_i,
        {
            let mut write_i: usize = 0;
            out.lows.reserve(WINDOW);
            let mut window: [u16; WINDOW] = [0; WINDOW];
            let ghost entered = chunk_i;
            assert(out.lows@ + window@.subrange(0, 0) =~= out.lows@);
            while write_i <= (WINDOW - 64) && chunk_i < stop_chunk_i
                invariant
                    bytes@ == input.spec_bytes(),
                    stop_chunk_i == block_len / 64,
                    block_len <= BLOCK,
                    block_base + block_len <= bytes.len(),
                    block_base == (blocks - 1) * 65536,
                    entered <= chunk_i <= stop_chunk_i,
                    chunk_i == entered ==> write_i == 0,
                    write_i <= WINDOW,
                    indexed(
                        bytes@,
                        block_base + chunk_i * 64,
                        blocks,
                        old(out),
                        out.lows@ + window@.subrange(0, write_i as int),
                        out.high_starts@,
                    ),
                decreases stop_chunk_i - chunk_i,
            {
                let at = block_base + chunk_i * 64;
                let mask0 = newline_mask32(bytes, at);
                let mask1 = newline_mask32(bytes, at + 32);
                let mut mask = ((mask1 as u64) << 32) | (mask0 as u64);
                proof {
                    lemma_join2(mask0, mask1, bytes@, at as int);
                }
                let ghost mut at_pos: int = block_base + chunk_i * 64;
                let ghost first = write_i;
                let mut was_odd = false;
                while mask != 0
                    invariant
                        bytes@ == input.spec_bytes(),
                        stop_chunk_i == block_len / 64,
                        block_len <= BLOCK,
                        block_base + block_len <= bytes.len(),
                        block_base == (blocks - 1) * 65536,
                        chunk_i < stop_chunk_i,
                        block_base + chunk_i * 64 <= at_pos <= block_base + chunk_i * 64 + 64,
                        first <= WINDOW - 64,
                        was_odd ==> mask == 0 && write_i > first,
                        first <= filled(write_i, was_odd) <= first + (at_pos - (block_base + chunk_i
                            * 64)),
                        (write_i - first) % 2 == 0,
                        marks_newlines(mask, bytes@, block_base + chunk_i * 64, 64, at_pos),
                        indexed(
                            bytes@,
                            at_pos,
                            blocks,
                            old(out),
                            out.lows@ + window@.subrange(0, filled(write_i, was_odd)),
                            out.high_starts@,
                        ),
                    decreases block_base + chunk_i * 64 + 64 - at_pos,
                {
                    proof {
                        lemma_lowest_newline(mask, bytes@, block_base + chunk_i * 64, 64, at_pos);
                    }
                    let bit_pos = mask.trailing_zeros() as u16;
                    let low = chunk_i as u16 * 64 + bit_pos;
                    proof {
                        let found = block_base + chunk_i * 64 + bit_pos;
                        let staged = out.lows@ + window@.subrange(0, write_i as int);
                        lemma_indexed_skip(
                            bytes@,
                            at_pos,
                            found,
                            blocks,
                            old(out),
                            staged,
                            out.high_starts@,
                        );
                        lemma_indexed_push(
                            bytes@,
                            found,
                            blocks,
                            old(out),
                            staged,
                            out.high_starts@,
                            low,
                        );
                        lemma_staged_push(out.lows@, window@, write_i as int, low);
                        at_pos = found + 1;
                    }
                    window[write_i] = low;
                    mask &= mask - 1;

                    let bit_pos = lowest_bit_or_zero(mask) as u16;
                    let low = chunk_i as u16 * 64 + bit_pos;
                    proof {
                        if mask != 0 {
                            lemma_lowest_newline(mask, bytes@, block_base + chunk_i * 64, 64, at_pos);
                            let found = block_base + chunk_i * 64 + bit_pos;
                            let staged = out.lows@ + window@.subrange(0, write_i + 1);
                            lemma_indexed_skip(
                                bytes@,
                                at_pos,
                                found,
                                blocks,
                                old(out),
                                staged,
                                out.high_starts@,
                            );
                            lemma_indexed_push(
                                bytes@,
                                found,
                                blocks,
                                old(out),
                                staged,
                                out.high_starts@,
                                low,
                            );
                            lemma_staged_push(out.lows@, window@, write_i + 1, low);
                            at_pos = found + 1;
                        } else {
                            lemma_staged_keep(out.lows@, window@, write_i + 1, write_i + 1, low);
                        }
                    }
                    window[write_i + 1] = low;
                    write_i += 2;
                    was_odd = mask == 0;
                    proof {
                        lemma_clear_lowest_wrapping(mask);
                    }
                    mask &= mask.wrapping_sub(1);
                }
                if was_odd {
                    write_i -= 1;
                }
                proof {
                    lemma_no_newline_left(mask, bytes@, block_base + chunk_i * 64, 64, at_pos);
                    lemma_indexed_skip(
                        bytes@,
                        at_pos,
                        block_base + chunk_i * 64 + 64,
                        blocks,
                        old(out),
                        out.lows@ + window@.subrange(0, write_i as int),
                        out.high_starts@,
                    );
                }
                chunk_i += 1;
            }
            let ghost held = out.lows@;
            out.lows.extend_from_slice(&window[0..write_i]);
            assert(out.lows@ =~= held + window@.subrange(0, write_i as int));
        }
        proof {
            lemma_block_passed(
                bytes.len() as int,
                block_base as int,
                block_len as int,
                blocks - 1,
                64,
            );
            pos = block_base + stop_chunk_i * 64;
        }
        block_base += block_len;
    }
    proof {
        lemma_tail_completes(bytes@, 64, blocks, old(out), out.lows@, out.high_starts@);
    }
    tail(64, input, out);
}

/// Whether [`avx512_compress`] is meant for a machine with these features:
/// it has to offer population count and the AVX-512 foundation,
/// byte-and-word and VBMI2 extensions.
pub fn can_run_avx512_compress(cpu: &CpuFeatures) -> (ok: bool)
    ensures
        ok == (cpu.popcnt && cpu.avx512f && cpu.avx512bw && cpu.avx512vbmi2),
{
    cpu.popcnt && cpu.avx512f && cpu.avx512bw && cpu.avx512vbmi2
}

/// Each of the 64 lanes holds its own place: 0, 1, 2 and so on.
#[verifier::opaque]
spec fn holds_places(lanes: Seq<u8>) -> bool {
    forall|j: int| 0 <= j < 64 ==> #[trigger] lanes[j] == j
}

/// The 64 lanes that hold their own place.
fn lane_places() -> (lanes: [u8; 64])
    ensures
        holds_places(lanes@),
{
    let mut lanes: [u8; 64] = [0; 64];
    let mut i: usize = 0;
    while i < 64
        invariant
            i <= 64,
            forall|j: int| 0 <= j < i ==> #[trigger] lanes@[j] == j,
        decreases 64 - i,
    {
        lanes[i] = i as u8;
        i += 1;
    }
    proof {
        reveal(holds_places);
    }
    lanes
}

/// Stores the 32 lanes from `from` on into the 32 slots of the window from
/// `at` on: each lane widened to 16 bits, plus `offset` with wrap-around.
fn store_lanes(window: &mut [u16; WINDOW], at: usize, lanes: &[u8; 64], from: usize, offset: u16)
    requires
        at + 32 <= WINDOW,
        from + 32 <= 64,
    ensures
        forall|i: int|
            0 <= i < WINDOW ==> #[trigger] final(window)@[i] == (if at <= i < at + 32 {
                (lanes@[from + (i - at)] as u16).wrapping_add(offset)
            } else {
                old(window)@[i]
            }),
{
    let mut j: usize = 0;
    while j < 32
        invariant
            j <= 32,
            at + 32 <= WINDOW,
            from + 32 <= 64,
            forall|i: int|
                0 <= i < WINDOW ==> #[trigger] window@[i] == (if at <= i < at + j {
                    (lanes@[from + (i - at)] as u16).wrapping_add(offset)
                } else {
                    old(window)@[i]
                }),
        decreases 32 - j,
    {
        window[at + j] = (lanes[from + j] as u16).wrapping_add(offset);
        j += 1;
    }
}

/// A scan passes a chunk of 64 bytes by reporting the low bits of the offset
/// of each set bit of the chunk's mask.
proof fn lemma_indexed_chunk(
    bytes: Seq<u8>,
    at: int,
    blocks: int,
    before: &LineIndex,
    lows: Seq<u16>,
    starts: Seq<usize>,
    mask: u64,
    added: Seq<u16>,
)
    requires
        indexed(bytes, at, blocks, before, lows, starts),
        marks_newlines(mask, bytes, at, 64, at),
        at + 64 <= bytes.len(),
        added.len() == set_bits(mask, 64).len(),
        forall|j: int| 0 <= j < added.len() ==> #[trigger] added[j] == (at + set_bits(mask, 64)[j]) % 65536,
    ensures
        indexed(bytes, at + 64, blocks, before, lows + added, starts),
{
    lemma_mask_offsets(mask, bytes, at, 64);
    let found = shifted(set_bits(mask, 64), at);
    lemma_low_bits_add(newline_offsets(bytes, at), found);
    assert(crate::compressed::low_bits(found) =~= added);
    assert(lows + added =~= before.lows@ + crate::compressed::low_bits(
        newline_offsets(bytes, at + 64),
    ));
}

/// Appends to `out` the index of `input`, scanning 64 bytes at a time
/// without a loop over the bits of a mask: the places of the set bits are
/// packed into the lowest lanes of a vector, widened to 16 bits, moved by
/// the chunk's offset in its block, and stored 32 lanes at a time. The first
/// 32 lanes are stored whatever the mask holds; the other 32 only when the
/// mask has more than 32 bits set. Slots that get a lane of no meaning lie
/// behind the filled part of the window.
#[verifier::rlimit(40)]
pub fn avx512_compress(input: &str, out: &mut LineIndex)
    ensures
        final(out).extends(old(out), input.spec_bytes()),
{
    let idx_v = lane_places();
    let bytes = input.as_bytes();
    let mut block_base: usize = 0;
    let ghost mut blocks: int = 0;
    let ghost mut pos: int = 0;
    proof {
        lemma_whole_chunks(bytes.len() as int, 64);
        assert(out.lows@ =~= old(out).lows@ + crate::compressed::low_bits(
            newline_offsets(bytes@, 0),
        ));
        assert(out.high_starts@ =~= old(out).high_starts@ + crate::compressed::block_starts(
            bytes@,
            0,
            old(out).lows@.len() as int,
        ));
    }
    while block_base < bytes.len()
        invariant
            bytes@ == input.spec_bytes(),
            block_base <= bytes.len(),
            blocks == crate::compressed::block_count(block_base as int),
            block_base < bytes.len() ==> block_base == blocks * 65536 && pos == block_base,
            block_base == bytes.len() ==> pos == whole_chunks(bytes.len() as int, 64),
            indexed(bytes@, pos, blocks, old(out), out.lows@, out.high_starts@),
            holds_places(idx_v@),
        decreases bytes.len() - block_base,
    {
        let block_len = if bytes.len() - block_base < BLOCK {
            bytes.len() - block_base
        } else {
            BLOCK
        };
        let start = out.lows.len();
        proof {
            lemma_indexed_enter(bytes@, pos, blocks, old(out), out.lows@, out.high_starts@);
            blocks = blocks + 1;
        }
        out.high_starts.push(start);
        let mut offset_v: u16 = 0;
        let mut chunk_i: usize = 0;
        let stop_chunk_i = block_len / 64;
        while chunk_i < stop_chunk_i
            invariant
                bytes@ == input.spec_bytes(),
                stop_chunk_i == block_len / 64,
                block_len <= BLOCK,
                block_base + block_len <= bytes.len(),
                block_base == (blocks - 1) * 65536,
                chunk_i <= stop_chunk_i,
                chunk_i < stop_chunk_i ==> offset_v == chunk_i * 64,
                holds_places(idx_v@),
                indexed(
                    bytes@,
                    block_base + chunk_i * 64,
                    blocks,
                    old(out),
                    out.lows@,
                    out.high_starts@,
                ),
            decreases stop_chunk_i - chunk_i,
        {
            let mut write_i: usize = 0;
            out.lows.reserve(WINDOW);
            let mut window: [u16; WINDOW] = [0; WINDOW];
            let ghost entered = chunk_i;
            assert(out.lows@ + window@.subrange(0, 0) =~= out.lows@);
            while write_i <= (WINDOW - 64) && chunk_i < stop_chunk_i
                invariant
                    bytes@ == input.spec_bytes(),
                    stop_chunk_i == block_len / 64,
                    block_len <= BLOCK,
                    block_base + block_len <= bytes.len(),
                    block_base == (blocks - 1) * 65536,
                    entered <= chunk_i <= stop_chunk_i,
                    chunk_i == entered ==> write_i == 0,
                    chunk_i < stop_chunk_i ==> offset_v == chunk_i * 64,
                    write_i <= WINDOW,
                    holds_places(idx_v@),
                    indexed(
                        bytes@,
                        block_base + chunk_i * 64,
                        blocks,
                        old(out),
                        out.lows@ + window@.subrange(0, write_i as int),
                        out.high_starts@,
                    ),
                decreases stop_chunk_i - chunk_i,
            {
                let at = block_base + chunk_i * 64;
                let mask = newline_mask64(bytes, at);
                let num_lines = mask.count_ones();
                let idxs = compress(mask, &idx_v);
                let ghost staged = out.lows@ + window@.subrange(0, write_i as int);
                let ghost places = set_bits(mask, 64);
                proof {
                    lemma_set_bits(mask, 64);
                }
                // first half
                store_lanes(&mut window, write_i, &idxs, 0, offset_v);
                // second half
                if num_lines > 32 {
                    // the first store has filled all of its 32 slots, so the second one
                    // goes right behind it
                    store_lanes(&mut window, write_i + 32, &idxs, 32, offset_v);
                }
                proof {
                    let added = window@.subrange(write_i as int, write_i + num_lines);
                    reveal(holds_places);
                    assert forall|j: int| 0 <= j < added.len() implies #[trigger] added[j] == (at
                        + places[j]) % 65536 by {
                        assert(added[j] == window@[write_i + j]);
                        assert(idxs@[j] == idx_v@[places[j]]);
                    }
                    lemma_indexed_chunk(
                        bytes@,
                        at as int,
                        blocks,
                        old(out),
                        staged,
                        out.high_starts@,
                        mask,
                        added,
                    );
                    assert(staged + added =~= out.lows@ + window@.subrange(
                        0,
                        write_i + num_lines,
                    ));
                }
                offset_v = offset_v.wrapping_add(64);
                write_i += num_lines as usize;
                chunk_i += 1;
            }
            let ghost held = out.lows@;
            out.lows.extend_from_slice(&window[0..write_i]);
            assert(out.lows@ =~= held + window@.subrange(0, write_i as int));
        }
        proof {
            lemma_block_passed(
                bytes.len() as int,
                block_base as int,
                block_len as int,
                blocks - 1,
                64,
            );
            pos = block_base + stop_chunk_i * 64;
        }
        block_base += block_len;
    }
    proof {
        lemma_tail_completes(bytes@, 64, blocks, old(out), out.lows@, out.high_starts@);
    }
    tail(64, input, out);
}

} // verus!
