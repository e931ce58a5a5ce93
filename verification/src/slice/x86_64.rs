//! Kernels of the slice family that scan in chunks of a vector register.
//!
//! Each kernel takes the input in chunks of 16, 32 or 64 bytes, gets the
//! newline mask of a chunk, and walks the mask from its lowest set bit
//! upwards. The bytes behind the last whole chunk are left to a scalar pass.
//! A kernel is named after the instruction set whose registers are as wide
//! as its chunks or the parts of them: SSE2 for 16 bytes, AVX2 for 32.
//!
//! The masks come from [`crate::mask`], which finds them without vector
//! instructions, so every kernel gives its result on every machine. The
//! predicates of this module tell for which machines a kernel is meant.
//!
//! The kernels named `unroll` keep growth of the output out of their inner
//! loops: they store views by index in a reservation window (see
//! [`crate::window`]) and append the filled part of the window to the output
//! in one step.

use crate::cpu::CpuFeatures;
use crate::lines::{
    closed_lines, lemma_closed_lines_prefix, lemma_scan_skip, lemma_whole_chunks, split_lines,
    whole_chunks, NEWLINE,
};
use crate::mask::{
    lemma_clear_lowest_wrapping, lemma_highest_newline, lemma_join2, lemma_join4,
    lemma_lowest_newline, lemma_lowest_newline16, lemma_lowest_newline32, lemma_mask_count,
    lemma_no_newline_left, lowest_bit_or_zero, marks_newlines, newline_mask16, newline_mask32,
};
use crate::slice::{
    appends_lines, lemma_scanned_edges, lemma_scanned_end, lemma_scanned_end_empty,
    lemma_scanned_push, lemma_scanned_skip, scanned,
};
use crate::text::cut;
use crate::window::{lemma_staged_push, WINDOW, WINDOW_SMALL};
use vstd::prelude::*;
use vstd::string::StringSliceAdditionalSpecFns;

verus! {

/// The scalar pass over the bytes behind the last whole chunk of
/// `chunk_size` bytes, and the report of the open line unless it is empty.
fn tail<'input>(
    line_start: usize,
    chunk_size: usize,
    input: &'input str,
    out: &mut Vec<&'input str>,
    Ghost(before): Ghost<Seq<&'input str>>,
)
    requires
        chunk_size > 0,
        scanned(
            input.spec_bytes(),
            whole_chunks(input.spec_bytes().len() as int, chunk_size as int),
            line_start as int,
            before,
            old(out)@,
        ),
    ensures
        appends_lines(before, final(out)@, split_lines(input.spec_bytes())),
{
    let bytes = input.as_bytes();
    let mut line_start = line_start;
    proof {
        lemma_whole_chunks(bytes.len() as int, chunk_size as int);
    }
    let mut i: usize = bytes.len() - bytes.len() % chunk_size;
    while i < bytes.len()
        invariant
            bytes@ == input.spec_bytes(),
            i <= bytes.len(),
            scanned(bytes@, i as int, line_start as int, before, out@),
        decreases bytes.len() - i,
    {
        if bytes[i] == NEWLINE {
            proof {
                lemma_scanned_edges(bytes@, i as int, line_start as int);
            }
            let line = cut(input, line_start, i);
            proof {
                lemma_scanned_push(bytes@, i as int, line_start as int, before, out@, line);
            }
            out.push(line);
            line_start = i + 1;
        } else {
            proof {
                lemma_scanned_skip(bytes@, i as int, i + 1, line_start as int, before, out@);
            }
        }
        i += 1;
    }
    if line_start != bytes.len() {
        proof {
            lemma_scanned_edges(bytes@, i as int, line_start as int);
        }
        let last = cut(input, line_start, bytes.len());
        proof {
            lemma_scanned_end(bytes@, line_start as int, before, out@, last);
        }
        out.push(last);
    } else {
        proof {
            lemma_scanned_end_empty(bytes@, before, out@);
        }
    }
}

/// Appends the lines of `input` to `out`, scanning 16 bytes at a time.
pub fn sse2<'input>(input: &'input str, out: &mut Vec<&'input str>)
    ensures
        appends_lines(old(out)@, final(out)@, split_lines(input.spec_bytes())),
{
    let bytes = input.as_bytes();
    let mut line_start: usize = 0;
    let chunks = bytes.len() / 16;
    let mut chunk_i: usize = 0;
    while chunk_i < chunks
        invariant
            bytes@ == input.spec_bytes(),
            chunks == bytes.len() / 16,
            chunk_i <= chunks,
            scanned(bytes@, chunk_i * 16, line_start as int, old(out)@, out@),
        decreases chunks - chunk_i,
    {
        let mut mask = newline_mask16(bytes, chunk_i * 16);
        let ghost mut pos: int = chunk_i * 16;
        while mask != 0
            invariant
                bytes@ == input.spec_bytes(),
                chunks == bytes.len() / 16,
                chunk_i < chunks,
                chunk_i * 16 <= pos <= chunk_i * 16 + 16,
                marks_newlines(mask as u64, bytes@, chunk_i * 16, 16, pos),
                scanned(bytes@, pos, line_start as int, old(out)@, out@),
            decreases chunk_i * 16 + 16 - pos,
        {
            proof {
                lemma_lowest_newline16(mask, bytes@, chunk_i * 16, 16, pos);
            }
            let bit_pos = mask.trailing_zeros() as usize;
            let line_end = chunk_i * 16 + bit_pos;
            proof {
                lemma_scanned_skip(
                    bytes@,
                    pos,
                    line_end as int,
                    line_start as int,
                    old(out)@,
                    out@,
                );
                lemma_scanned_edges(bytes@, line_end as int, line_start as int);
            }
            let line = cut(input, line_start, line_end);
            proof {
                lemma_scanned_push(
                    bytes@,
                    line_end as int,
                    line_start as int,
                    old(out)@,
                    out@,
                    line,
                );
                pos = line_end + 1;
            }
            out.push(line);
            line_start = line_end + 1;
            mask &= mask - 1;
        }
        proof {
            lemma_no_newline_left(mask as u64, bytes@, chunk_i * 16, 16, pos);
            lemma_scanned_skip(
                bytes@,
                pos,
                chunk_i * 16 + 16,
                line_start as int,
                old(out)@,
                out@,
            );
        }
        chunk_i += 1;
    }
    tail(line_start, 16, input, out, Ghost(old(out)@));
}

/// Appends the lines of `input` to `out`, scanning 16 bytes at a time, as
/// [`sse2`] does. This is the variant that cuts its views without a check of
/// the range: the proof shows every cut of every kernel to be in range, so
/// here the two do the same.
pub fn sse2_unsafe<'input>(input: &'input str, out: &mut Vec<&'input str>)
    ensures
        appends_lines(old(out)@, final(out)@, split_lines(input.spec_bytes())),
{
    let bytes = input.as_bytes();
    let mut line_start: usize = 0;
    let chunks = bytes.len() / 16;
    let mut chunk_i: usize = 0;
    while chunk_i < chunks
        invariant
            bytes@ == input.spec_bytes(),
            chunks == bytes.len() / 16,
            chunk_i <= chunks,
            scanned(bytes@, chunk_i * 16, line_start as int, old(out)@, out@),
        decreases chunks - chunk_i,
    {
        let mut mask = newline_mask16(bytes, chunk_i * 16);
        let ghost mut pos: int = chunk_i * 16;
        while mask != 0
            invariant
                bytes@ == input.spec_bytes(),
                chunks == bytes.len() / 16,
                chunk_i < chunks,
                chunk_i * 16 <= pos <= chunk_i * 16 + 16,
                marks_newlines(mask as u64, bytes@, chunk_i * 16, 16, pos),
                scanned(bytes@, pos, line_start as int, old(out)@, out@),
            decreases chunk_i * 16 + 16 - pos,
        {
            proof {
                lemma_lowest_newline16(mask, bytes@, chunk_i * 16, 16, pos);
            }
            let bit_pos = mask.trailing_zeros() as usize;
            let line_end = chunk_i * 16 + bit_pos;
            proof {
                lemma_scanned_skip(
                    bytes@,
                    pos,
                    line_end as int,
                    line_start as int,
                    old(out)@,
                    out@,
                );
                lemma_scanned_edges(bytes@, line_end as int, line_start as int);
            }
            let line = cut(input, line_start, line_end);
            proof {
                lemma_scanned_push(
                    bytes@,
                    line_end as int,
                    line_start as int,
                    old(out)@,
                    out@,
                    line,
                );
                pos = line_end + 1;
            }
            out.push(line);
            line_start = line_end + 1;
            mask &= mask - 1;
        }
        proof {
            lemma_no_newline_left(mask as u64, bytes@, chunk_i * 16, 16, pos);
            lemma_scanned_skip(
                bytes@,
                pos,
                chunk_i * 16 + 16,
                line_start as int,
                old(out)@,
                out@,
            );
        }
        chunk_i += 1;
    }
    tail(line_start, 16, input, out, Ghost(old(out)@));
}

/// Appends the lines of `input` to `out`, scanning 16 bytes at a time and
/// storing the views through a reservation window.
pub fn sse2_unroll<'input>(input: &'input str, out: &mut Vec<&'input str>)
    ensures
        appends_lines(old(out)@, final(out)@, split_lines(input.spec_bytes())),
{
    let bytes = input.as_bytes();
    let mut line_start: usize = 0;
    let mut chunk_i: usize = 0;
    let stop_chunk_i = bytes.len() / 16;
    while chunk_i < stop_chunk_i
        invariant
            bytes@ == input.spec_bytes(),
            stop_chunk_i == bytes.len() / 16,
            chunk_i <= stop_chunk_i,
            scanned(bytes@, chunk_i * 16, line_start as int, old(out)@, out@),
        decreases stop_chunk_i - chunk_i,
    {
        let mut write_i: usize = 0;
        out.reserve(WINDOW_SMALL);
        let mut window: [&'input str; WINDOW_SMALL] = [""; WINDOW_SMALL];
        let ghost entered = chunk_i;
        assert(out@ + window@.subrange(0, 0) =~= out@);
        while write_i <= (WINDOW_SMALL - 16) && chunk_i < stop_chunk_i
            invariant
                bytes@ == input.spec_bytes(),
                stop_chunk_i == bytes.len() / 16,
                entered <= chunk_i <= stop_chunk_i,
                chunk_i == entered ==> write_i == 0,
                write_i <= WINDOW_SMALL,
                scanned(
                    bytes@,
                    chunk_i * 16,
                    line_start as int,
                    old(out)@,
                    out@ + window@.subrange(0, write_i as int),
                ),
            decreases stop_chunk_i - chunk_i,
        {
            let mut mask = newline_mask16(bytes, chunk_i * 16);
            let ghost mut pos: int = chunk_i * 16;
            let ghost first = write_i;
            while mask != 0
                invariant
                    bytes@ == input.spec_bytes(),
                    stop_chunk_i == bytes.len() / 16,
                    chunk_i < stop_chunk_i,
                    chunk_i * 16 <= pos <= chunk_i * 16 + 16,
                    first <= WINDOW_SMALL - 16,
                    first <= write_i <= first + (pos - chunk_i * 16),
                    marks_newlines(mask as u64, bytes@, chunk_i * 16, 16, pos),
                    scanned(
                        bytes@,
                        pos,
                        line_start as int,
                        old(out)@,
                        out@ + window@.subrange(0, write_i as int),
                    ),
                decreases chunk_i * 16 + 16 - pos,
            {
                proof {
                    lemma_lowest_newline16(mask, bytes@, chunk_i * 16, 16, pos);
                }
                let bit_pos = mask.trailing_zeros() as usize;
                let line_end = chunk_i * 16 + bit_pos;
                let ghost staged = out@ + window@.subrange(0, write_i as int);
                proof {
                    lemma_scanned_skip(
                        bytes@,
                        pos,
                        line_end as int,
                        line_start as int,
                        old(out)@,
                        staged,
                    );
                    lemma_scanned_edges(bytes@, line_end as int, line_start as int);
                }
                let line = cut(input, line_start, line_end);
                proof {
                    lemma_scanned_push(
                        bytes@,
                        line_end as int,
                        line_start as int,
                        old(out)@,
                        staged,
                        line,
                    );
                    lemma_staged_push(out@, window@, write_i as int, line);
                    pos = line_end + 1;
                }
                window[write_i] = line;
                write_i += 1;
                line_start = line_end + 1;
                mask &= mask - 1;
            }
            proof {
                lemma_no_newline_left(mask as u64, bytes@, chunk_i * 16, 16, pos);
                lemma_scanned_skip(
                    bytes@,
                    pos,
                    chunk_i * 16 + 16,
                    line_start as int,
                    old(out)@,
                    out@ + window@.subrange(0, write_i as int),
                );
            }
            chunk_i += 1;
        }
        let ghost held = out@;
        out.extend_from_slice(&window[0..write_i]);
        assert(out@ =~= held + window@.subrange(0, write_i as int));
    }
    tail(line_start, 16, input, out, Ghost(old(out)@));
}

/// Appends the lines of `input` to `out`, scanning 64 bytes at a time: four
/// masks of 16 bytes are joined into one of 64 bits. The views are stored
/// through a reservation window.
pub fn sse2_unrollx4<'input>(input: &'input str, out: &mut Vec<&'input str>)
    ensures
        appends_lines(old(out)@, final(out)@, split_lines(input.spec_bytes())),
{
    let bytes = input.as_bytes();
    let mut line_start: usize = 0;
    let mut chunk_i: usize = 0;
    let stop_chunk_i = bytes.len() / 64;
    while chunk_i < stop_chunk_i
        invariant
            bytes@ == input.spec_bytes(),
            stop_chunk_i == bytes.len() / 64,
            chunk_i <= stop_chunk_i,
            scanned(bytes@, chunk_i * 64, line_start as int, old(out)@, out@),
        decreases stop_chunk_i - chunk_i,
    {
        let mut write_i: usize = 0;
        out.reserve(WINDOW);
        let mut window: [&'input str; WINDOW] = [""; WINDOW];
        let ghost entered = chunk_i;
        assert(out@ + window@.subrange(0, 0) =~= out@);
        while write_i <= (WINDOW - 64) && chunk_i < stop_chunk_i
            invariant
                bytes@ == input.spec_bytes(),
                stop_chunk_i == bytes.len() / 64,
                entered <= chunk_i <= stop_chunk_i,
                chunk_i == entered ==> write_i == 0,
                write_i <= WINDOW,
                scanned(
                    bytes@,
                    chunk_i * 64,
                    line_start as int,
                    old(out)@,
                    out@ + window@.subrange(0, write_i as int),
                ),
            decreases stop_chunk_i - chunk_i,
        {
            let at = chunk_i * 64;
            let mask0 = newline_mask16(bytes, at);
            let mask1 = newline_mask16(bytes, at + 16);
            let mask2 = newline_mask16(bytes, at + 32);
            let mask3 = newline_mask16(bytes, at + 48);
            let mut mask = (mask0 as u64) | ((mask1 as u64) << 16) | ((mask2 as u64) << 32) | ((mask3 as u64)
                << 48);
            proof {
                lemma_join4(mask0, mask1, mask2, mask3, bytes@, at as int);
            }
            let ghost mut pos: int = chunk_i * 64;
            let ghost first = write_i;
            while mask != 0
                invariant
                    bytes@ == input.spec_bytes(),
                    stop_chunk_i == bytes.len() / 64,
                    chunk_i < stop_chunk_i,
                    chunk_i * 64 <= pos <= chunk_i * 64 + 64,
                    first <= WINDOW - 64,
                    first <= write_i <= first + (pos - chunk_i * 64),
                    marks_newlines(mask, bytes@, chunk_i * 64, 64, pos),
                    scanned(
                        bytes@,
                        pos,
                        line_start as int,
                        old(out)@,
                        out@ + window@.subrange(0, write_i as int),
                    ),
                decreases chunk_i * 64 + 64 - pos,
            {
                proof {
                    lemma_lowest_newline(mask, bytes@, chunk_i * 64, 64, pos);
                }
                let bit_pos = mask.trailing_zeros() as usize;
                let line_end = chunk_i * 64 + bit_pos;
                let ghost staged = out@ + window@.subrange(0, write_i as int);
                proof {
                    lemma_scanned_skip(
                        bytes@,
                        pos,
                        line_end as int,
                        line_start as int,
                        old(out)@,
                        staged,
                    );
                    lemma_scanned_edges(bytes@, line_end as int, line_start as int);
                }
                let line = cut(input, line_start, line_end);
                proof {
                    lemma_scanned_push(
                        bytes@,
                        line_end as int,
                        line_start as int,
                        old(out)@,
                        staged,
                        line,
                    );
                    lemma_staged_push(out@, window@, write_i as int, line);
                    pos = line_end + 1;
                }
                window[write_i] = line;
                write_i += 1;
                line_start = line_end + 1;
                mask &= mask - 1;
            }
            proof {
                lemma_no_newline_left(mask, bytes@, chunk_i * 64, 64, pos);
                lemma_scanned_skip(
                    bytes@,
                    pos,
                    chunk_i * 64 + 64,
                    line_start as int,
                    old(out)@,
                    out@ + window@.subrange(0, write_i as int),
                );
            }
            chunk_i += 1;
        }
        let ghost held = out@;
        out.extend_from_slice(&window[0..write_i]);
        assert(out@ =~= held + window@.subrange(0, write_i as int));
    }
    tail(line_start, 64, input, out, Ghost(old(out)@));
}

/// Whether the kernels of this module with masks of 32 bytes are meant for
/// a machine with these features: it has to offer AVX2.
pub fn can_run_avx2(cpu: &CpuFeatures) -> (ok: bool)
    ensures
        ok == cpu.avx2,
{
    cpu.avx2
}

/// Appends the lines of `input` to `out`, scanning 32 bytes at a time.
pub fn avx2<'input>(input: &'input str, out: &mut Vec<&'input str>)
    ensures
        appends_lines(old(out)@, final(out)@, split_lines(input.spec_bytes())),
{
    let bytes = input.as_bytes();
    let mut line_start: usize = 0;
    let chunks = bytes.len() / 32;
    let mut chunk_i: usize = 0;
    while chunk_i < chunks
        invariant
            bytes@ == input.spec_bytes(),
            chunks == bytes.len() / 32,
            chunk_i <= chunks,
            scanned(bytes@, chunk_i * 32, line_start as int, old(out)@, out@),
        decreases chunks - chunk_i,
    {
        let mut mask = newline_mask32(bytes, chunk_i * 32);
        let ghost mut pos: int = chunk_i * 32;
        while mask != 0
            invariant
                bytes@ == input.spec_bytes(),
                chunks == bytes.len() / 32,
                chunk_i < chunks,
                chunk_i * 32 <= pos <= chunk_i * 32 + 32,
                marks_newlines(mask as u64, bytes@, chunk_i * 32, 32, pos),
                scanned(bytes@, pos, line_start as int, old(out)@, out@),
            decreases chunk_i * 32 + 32 - pos,
        {
            proof {
                lemma_lowest_newline32(mask, bytes@, chunk_i * 32, 32, pos);
            }
            let bit_pos = mask.trailing_zeros() as usize;
            let line_end = chunk_i * 32 + bit_pos;
            proof {
                lemma_scanned_skip(
                    bytes@,
                    pos,
                    line_end as int,
                    line_start as int,
                    old(out)@,
                    out@,
                );
                lemma_scanned_edges(bytes@, line_end as int, line_start as int);
            }
            let line = cut(input, line_start, line_end);
            proof {
                lemma_scanned_push(
                    bytes@,
                    line_end as int,
                    line_start as int,
                    old(out)@,
                    out@,
                    line,
                );
                pos = line_end + 1;
            }
            out.push(line);
            line_start = line_end + 1;
            mask &= mask - 1;
        }
        proof {
            lemma_no_newline_left(mask as u64, bytes@, chunk_i * 32, 32, pos);
            lemma_scanned_skip(
                bytes@,
                pos,
                chunk_i * 32 + 32,
                line_start as int,
                old(out)@,
                out@,
            );
        }
        chunk_i += 1;
    }
    tail(line_start, 32, input, out, Ghost(old(out)@));
}

/// Appends the lines of `input` to `out`, scanning 32 bytes at a time, as
/// [`avx2`] does. This is the variant that cuts its views without a check of
/// the range: the proof shows every cut of every kernel to be in range, so
/// here the two do the same.
pub fn avx2_unsafe<'input>(input: &'input str, out: &mut Vec<&'input str>)
    ensures
        appends_lines(old(out)@, final(out)@, split_lines(input.spec_bytes())),
{
    let bytes = input.as_bytes();
    let mut line_start: usize = 0;
    let chunks = bytes.len() / 32;
    let mut chunk_i: usize = 0;
    while chunk_i < chunks
        invariant
            bytes@ == input.spec_bytes(),
            chunks == bytes.len() / 32,
            chunk_i <= chunks,
            scanned(bytes@, chunk_i * 32, line_start as int, old(out)@, out@),
        decreases chunks - chunk_i,
    {
        let mut mask = newline_mask32(bytes, chunk_i * 32);
        let ghost mut pos: int = chunk_i * 32;
        while mask != 0
            invariant
                bytes@ == input.spec_bytes(),
                chunks == bytes.len() / 32,
                chunk_i < chunks,
                chunk_i * 32 <= pos <= chunk_i * 32 + 32,
                marks_newlines(mask as u64, bytes@, chunk_i * 32, 32, pos),
                scanned(bytes@, pos, line_start as int, old(out)@, out@),
            decreases chunk_i * 32 + 32 - pos,
        {
            proof {
                lemma_lowest_newline32(mask, bytes@, chunk_i * 32, 32, pos);
            }
            let bit_pos = mask.trailing_zeros() as usize;
            let line_end = chunk_i * 32 + bit_pos;
            proof {
                lemma_scanned_skip(
                    bytes@,
                    pos,
                    line_end as int,
                    line_start as int,
                    old(out)@,
                    out@,
                );
                lemma_scanned_edges(bytes@, line_end as int, line_start as int);
            }
            let line = cut(input, line_start, line_end);
            proof {
                lemma_scanned_push(
                    bytes@,
                    line_end as int,
                    line_start as int,
                    old(out)@,
                    out@,
                    line,
                );
                pos = line_end + 1;
            }
            out.push(line);
            line_start = line_end + 1;
            mask &= mask - 1;
        }
        proof {
            lemma_no_newline_left(mask as u64, bytes@, chunk_i * 32, 32, pos);
            lemma_scanned_skip(
                bytes@,
                pos,
                chunk_i * 32 + 32,
                line_start as int,
                old(out)@,
                out@,
            );
        }
        chunk_i += 1;
    }
    tail(line_start, 32, input, out, Ghost(old(out)@));
}

/// Appends the lines of `input` to `out`, scanning 32 bytes at a time and
/// storing the views through a reservation window.
pub fn avx2_unroll<'input>(input: &'input str, out: &mut Vec<&'input str>)
    ensures
        appends_lines(old(out)@, final(out)@, split_lines(input.spec_bytes())),
{
    let bytes = input.as_bytes();
    let mut line_start: usize = 0;
    let mut chunk_i: usize = 0;
    let stop_chunk_i = bytes.len() / 32;
    while chunk_i < stop_chunk_i
        invariant
            bytes@ == input.spec_bytes(),
            stop_chunk_i == bytes.len() / 32,
            chunk_i <= stop_chunk_i,
            scanned(bytes@, chunk_i * 32, line_start as int, old(out)@, out@),
        decreases stop_chunk_i - chunk_i,
    {
        let mut write_i: usize = 0;
        out.reserve(WINDOW);
        let mut window: [&'input str; WINDOW] = [""; WINDOW];
        let ghost entered = chunk_i;
        assert(out@ + window@.subrange(0, 0) =~= out@);
        while write_i <= (WINDOW - 32) && chunk_i < stop_chunk_i
            invariant
                bytes@ == input.spec_bytes(),
                stop_chunk_i == bytes.len() / 32,
                entered <= chunk_i <= stop_chunk_i,
                chunk_i == entered ==> write_i == 0,
                write_i <= WINDOW,
                scanned(
                    bytes@,
                    chunk_i * 32,
                    line_start as int,
                    old(out)@,
                    out@ + window@.subrange(0, write_i as int),
                ),
            decreases stop_chunk_i - chunk_i,
        {
            let mut mask = newline_mask32(bytes, chunk_i * 32);
            let ghost mut pos: int = chunk_i * 32;
            let ghost first = write_i;
            while mask != 0
                invariant
                    bytes@ == input.spec_bytes(),
                    stop_chunk_i == bytes.len() / 32,
                    chunk_i < stop_chunk_i,
                    chunk_i * 32 <= pos <= chunk_i * 32 + 32,
                    first <= WINDOW - 32,
                    first <= write_i <= first + (pos - chunk_i * 32),
                    marks_newlines(mask as u64, bytes@, chunk_i * 32, 32, pos),
                    scanned(
                        bytes@,
                        pos,
                        line_start as int,
                        old(out)@,
                        out@ + window@.subrange(0, write_i as int),
                    ),
                decreases chunk_i * 32 + 32 - pos,
            {
                proof {
                    lemma_lowest_newline32(mask, bytes@, chunk_i * 32, 32, pos);
                }
                let bit_pos = mask.trailing_zeros() as usize;
                let line_end = chunk_i * 32 + bit_pos;
                let ghost staged = out@ + window@.subrange(0, write_i as int);
                proof {
                    lemma_scanned_skip(
                        bytes@,
                        pos,
                        line_end as int,
                        line_start as int,
                        old(out)@,
                        staged,
                    );
                    lemma_scanned_edges(bytes@, line_end as int, line_start as int);
                }
                let line = cut(input, line_start, line_end);
                proof {
                    lemma_scanned_push(
                        bytes@,
                        line_end as int,
                        line_start as int,
                        old(out)@,
                        staged,
                        line,
                    );
                    lemma_staged_push(out@, window@, write_i as int, line);
                    pos = line_end + 1;
                }
                window[write_i] = line;
                write_i += 1;
                line_start = line_end + 1;
                mask &= mask - 1;
            }
            proof {
                lemma_no_newline_left(mask as u64, bytes@, chunk_i * 32, 32, pos);
                lemma_scanned_skip(
                    bytes@,
                    pos,
                    chunk_i * 32 + 32,
                    line_start as int,
                    old(out)@,
                    out@ + window@.subrange(0, write_i as int),
                );
            }
            chunk_i += 1;
        }
        let ghost held = out@;
        out.extend_from_slice(&window[0..write_i]);
        assert(out@ =~= held + window@.subrange(0, write_i as int));
    }
    tail(line_start, 32, input, out, Ghost(old(out)@));
}

/// Appends the lines of `input` to `out`, scanning 64 bytes at a time: two
/// masks of 32 bytes are joined into one of 64 bits. The views are stored
/// through a reservation window.
pub fn avx2_unrollx2<'input>(input: &'input str, out: &mut Vec<&'input str>)
    ensures
        appends_lines(old(out)@, final(out)@, split_lines(input.spec_bytes())),
{
    let bytes = input.as_bytes();
    let mut line_start: usize = 0;
    let mut chunk_i: usize = 0;
    let stop_chunk_i = bytes.len() / 64;
    while chunk_i < stop_chunk_i
        invariant
            bytes@ == input.spec_bytes(),
            stop_chunk_i == bytes.len() / 64,
            chunk_i <= stop_chunk_i,
            scanned(bytes@, chunk_i * 64, line_start as int, old(out)@, out@),
        decreases stop_chunk_i - chunk_i,
    {
        let mut write_i: usize = 0;
        out.reserve(WINDOW);
        let mut window: [&'input str; WINDOW] = [""; WINDOW];
        let ghost entered = chunk_i;
        assert(out@ + window@.subrange(0, 0) =~= out@);
        while write_i <= (WINDOW - 64) && chunk_i < stop_chunk_i
            invariant
                bytes@ == input.spec_bytes(),
                stop_chunk_i == bytes.len() / 64,
                entered <= chunk_i <= stop_chunk_i,
                chunk_i == entered ==> write_i == 0,
                write_i <= WINDOW,
                scanned(
                    bytes@,
                    chunk_i * 64,
                    line_start as int,
                    old(out)@,
                    out@ + window@.subrange(0, write_i as int),
                ),
            decreases stop_chunk_i - chunk_i,
        {
            let at = chunk_i * 64;
            let mask0 = newline_mask32(bytes, at);
            let mask1 = newline_mask32(bytes, at + 32);
            let mut mask = ((mask1 as u64) << 32) | (mask0 as u64);
            proof {
                lemma_join2(mask0, mask1, bytes@, at as int);
            }
            let ghost mut pos: int = chunk_i * 64;
            let ghost first = write_i;
            while mask != 0
                invariant
                    bytes@ == input.spec_bytes(),
                    stop_chunk_i == bytes.len() / 64,
                    chunk_i < stop_chunk_i,
                    chunk_i * 64 <= pos <= chunk_i * 64 + 64,
                    first <= WINDOW - 64,
                    first <= write_i <= first + (pos - chunk_i * 64),
                    marks_newlines(mask, bytes@, chunk_i * 64, 64, pos),
                    scanned(
                        bytes@,
                        pos,
                        line_start as int,
                        old(out)@,
                        out@ + window@.subrange(0, write_i as int),
                    ),
                decreases chunk_i * 64 + 64 - pos,
            {
                proof {
                    lemma_lowest_newline(mask, bytes@, chunk_i * 64, 64, pos);
                }
                let bit_pos = mask.trailing_zeros() as usize;
                let line_end = chunk_i * 64 + bit_pos;
                let ghost staged = out@ + window@.subrange(0, write_i as int);
                proof {
                    lemma_scanned_skip(
                        bytes@,
                        pos,
                        line_end as int,
                        line_start as int,
                        old(out)@,
                        staged,
                    );
                    lemma_scanned_edges(bytes@, line_end as int, line_start as int);
                }
                let line = cut(input, line_start, line_end);
                proof {
                    lemma_scanned_push(
                        bytes@,
                        line_end as int,
                        line_start as int,
                        old(out)@,
                        staged,
                        line,
                    );
                    lemma_staged_push(out@, window@, write_i as int, line);
                    pos = line_end + 1;
                }
                window[write_i] = line;
                write_i += 1;
                line_start = line_end + 1;
                mask &= mask - 1;
            }
            proof {
                lemma_no_newline_left(mask, bytes@, chunk_i * 64, 64, pos);
                lemma_scanned_skip(
                    bytes@,
                    pos,
                    chunk_i * 64 + 64,
                    line_start as int,
                    old(out)@,
                    out@ + window@.subrange(0, write_i as int),
                );
            }
            chunk_i += 1;
        }
        let ghost held = out@;
        out.extend_from_slice(&window[0..write_i]);
        assert(out@ =~= held + window@.subrange(0, write_i as int));
    }
    tail(line_start, 64, input, out, Ghost(old(out)@));
}

/// Whether [`sse42_unrollx4_interleavex2`] is meant for a machine with
/// these features: it has to offer SSE4.2 and population count.
pub fn can_run_sse42(cpu: &CpuFeatures) -> (ok: bool)
    ensures
        ok == (cpu.sse42 && cpu.popcnt),
{
    cpu.sse42 && cpu.popcnt
}

/// The newline mask of the 64 bytes at `at`: joined from four masks of 16
/// bytes if `quarters`, else from two masks of 32 bytes.
fn stride_mask(bytes: &[u8], at: usize, quarters: bool) -> (mask: u64)
    requires
        at + 64 <= bytes.len(),
    ensures
        marks_newlines(mask, bytes@, at as int, 64, at as int),
{
    if quarters {
        let mask0 = newline_mask16(bytes, at);
        let mask1 = newline_mask16(bytes, at + 16);
        let mask2 = newline_mask16(bytes, at + 32);
        let mask3 = newline_mask16(bytes, at + 48);
        proof {
            lemma_join4(mask0, mask1, mask2, mask3, bytes@, at as int);
        }
        (mask0 as u64) | ((mask1 as u64) << 16) | ((mask2 as u64) << 32) | ((mask3 as u64) << 48)
    } else {
        let mask0 = newline_mask32(bytes, at);
        let mask1 = newline_mask32(bytes, at + 32);
        proof {
            lemma_join2(mask0, mask1, bytes@, at as int);
        }
        ((mask1 as u64) << 32) | (mask0 as u64)
    }
}

/// A window that two cursors fill at once. The slots before `write_i` are
/// as they were on `entry`. The slots from `write_i` to `write_a` and those
/// from `mid` to `write_b` hold views of the lines `all`, the slot `write_i`
/// that of line `first`, and each slot behind it that of the next line.
spec fn two_runs(
    window: Seq<&str>,
    entry: Seq<&str>,
    write_i: int,
    write_a: int,
    mid: int,
    write_b: int,
    all: Seq<Seq<u8>>,
    first: int,
) -> bool {
    &&& window.len() == entry.len()
    &&& 0 <= write_i <= write_a <= mid <= write_b <= window.len()
    &&& 0 <= first
    &&& first + (write_b - write_i) <= all.len()
    &&& forall|k: int| 0 <= k < write_i ==> window[k] == entry[k]
    &&& forall|k: int|
        write_i <= k < write_a ==> (#[trigger] window[k]).spec_bytes() == all[first + (k - write_i)]
    &&& forall|k: int|
        mid <= k < write_b ==> (#[trigger] window[k]).spec_bytes() == all[first + (k - write_i)]
}

/// The first cursor stores the view of its next line.
proof fn lemma_two_runs_first(
    window: Seq<&str>,
    entry: Seq<&str>,
    write_i: int,
    write_a: int,
    mid: int,
    write_b: int,
    all: Seq<Seq<u8>>,
    first: int,
    line: &str,
)
    requires
        two_runs(window, entry, write_i, write_a, mid, write_b, all, first),
        write_a < mid,
        line.spec_bytes() == all[first + (write_a - write_i)],
    ensures
        two_runs(
            window.update(write_a, line),
            entry,
            write_i,
            write_a + 1,
            mid,
            write_b,
            all,
            first,
        ),
{
}

/// The second cursor stores the view of its next line, or, where it has
/// none left, anything at all into the slot that it has not reached.
proof fn lemma_two_runs_second(
    window: Seq<&str>,
    entry: Seq<&str>,
    write_i: int,
    write_a: int,
    mid: int,
    write_b: int,
    all: Seq<Seq<u8>>,
    first: int,
    line: &str,
)
    requires
        two_runs(window, entry, write_i, write_a, mid, write_b, all, first),
        write_b < window.len(),
    ensures
        two_runs(window.update(write_b, line), entry, write_i, write_a, mid, write_b, all, first),
        first + (write_b - write_i) < all.len() && line.spec_bytes() == all[first + (write_b
            - write_i)] ==> two_runs(
            window.update(write_b, line),
            entry,
            write_i,
            write_a,
            mid,
            write_b + 1,
            all,
            first,
        ),
{
}

/// When the first cursor has met the start of the second and the second
/// has stored its last line, the window holds a view of every line closed so
/// far.
proof fn lemma_two_runs_done(
    bytes: Seq<u8>,
    at: int,
    before: Seq<&str>,
    out: Seq<&str>,
    window: Seq<&str>,
    entry: Seq<&str>,
    write_i: int,
    mid: int,
    write_b: int,
)
    requires
        0 <= at,
        at + 128 <= bytes.len(),
        appends_lines(before, out + entry.subrange(0, write_i), closed_lines(bytes, at)),
        two_runs(
            window,
            entry,
            write_i,
            mid,
            mid,
            write_b,
            closed_lines(bytes, at + 128),
            closed_lines(bytes, at).len() as int,
        ),
        closed_lines(bytes, at + 128).len() == closed_lines(bytes, at).len() + (write_b - write_i),
    ensures
        appends_lines(before, out + window.subrange(0, write_b), closed_lines(bytes, at + 128)),
{
    let all = closed_lines(bytes, at + 128);
    let first = closed_lines(bytes, at).len() as int;
    let held = out + entry.subrange(0, write_i);
    let now = out + window.subrange(0, write_b);
    lemma_closed_lines_prefix(bytes, at, at + 128);
    assert forall|i: int| 0 <= i < before.len() implies now[i] == before[i] by {
        assert(held[i] == before[i]);
    }
    assert forall|i: int| before.len() <= i < now.len() implies (#[trigger] now[i]).spec_bytes()
        == all[i - before.len()] by {
        let k = i - before.len();
        if k < first {
            assert(held[i].spec_bytes() == closed_lines(bytes, at)[k]);
            assert(now[i] == held[i]);
        } else {
            assert(now[i] == window[write_i + (k - first)]);
        }
    }
}

/// A newline at `found` closes the line that begins where the line around
/// `found` begins, and a scan up to `end` has that line at the place that
/// the number of lines closed before tells.
proof fn lemma_line_found(bytes: Seq<u8>, found: int, end: int)
    requires
        0 <= found < end <= bytes.len(),
        bytes[found] == NEWLINE,
    ensures
        closed_lines(bytes, found + 1).len() == closed_lines(bytes, found).len() + 1,
        closed_lines(bytes, found + 1).len() <= closed_lines(bytes, end).len(),
        closed_lines(bytes, end)[closed_lines(bytes, found).len() as int] == bytes.subrange(
            crate::lines::line_start(bytes, found),
            found,
        ),
        crate::lines::line_start(bytes, found + 1) == found + 1,
{
    lemma_closed_lines_prefix(bytes, found + 1, end);
    assert(closed_lines(bytes, found + 1)[closed_lines(bytes, found).len() as int]
        == bytes.subrange(crate::lines::line_start(bytes, found), found));
}

/// The kernel of the two interleaved variants: two strides of 64 bytes in
/// each round, each with a write cursor of its own.
#[verifier::rlimit(40)]
fn interleavex2<'input>(input: &'input str, out: &mut Vec<&'input str>, quarters: bool)
    ensures
        appends_lines(old(out)@, final(out)@, split_lines(input.spec_bytes())),
{
    let bytes = input.as_bytes();
    let mut line_start: usize = 0;
    let mut pair_i: usize = 0;
    let stop_pair_i = bytes.len() / 128;
    while pair_i < stop_pair_i
        invariant
            bytes@ == input.spec_bytes(),
            stop_pair_i == bytes.len() / 128,
            pair_i <= stop_pair_i,
            scanned(bytes@, pair_i * 128, line_start as int, old(out)@, out@),
        decreases stop_pair_i - pair_i,
    {
        let mut write_i: usize = 0;
        out.reserve(WINDOW);
        let mut window: [&'input str; WINDOW] = [""; WINDOW];
        let ghost entered = pair_i;
        assert(out@ + window@.subrange(0, 0) =~= out@);
        while write_i <= (WINDOW - 128) && pair_i < stop_pair_i
            invariant
                bytes@ == input.spec_bytes(),
                stop_pair_i == bytes.len() / 128,
                entered <= pair_i <= stop_pair_i,
                pair_i == entered ==> write_i == 0,
                write_i <= WINDOW,
                scanned(
                    bytes@,
                    pair_i * 128,
                    line_start as int,
                    old(out)@,
                    out@ + window@.subrange(0, write_i as int),
                ),
            decreases stop_pair_i - pair_i,
        {
            let at = pair_i * 128;
            let mut mask_a = stride_mask(bytes, at, quarters);
            let mut mask_b = stride_mask(bytes, at + 64, quarters);
            let count_a = mask_a.count_ones() as usize;
            let count_b = mask_b.count_ones() as usize;
            let ghost all = closed_lines(bytes@, at + 128);
            let ghost first = closed_lines(bytes@, at as int).len() as int;
            let ghost entry = window@;
            proof {
                lemma_mask_count(mask_a, bytes@, at as int);
                lemma_mask_count(mask_b, bytes@, at + 64);
            }
            // stride A writes from `write_i` on, stride B behind all that A will write
            let mut write_a = write_i;
            let mut write_b = write_i + count_a;
            let ghost mid = write_b as int;
            let mut start_a = line_start;
            let mut start_b = if mask_a == 0 {
                line_start
            } else {
                at + 64 - mask_a.leading_zeros() as usize
            };
            proof {
                if mask_a == 0 {
                    lemma_no_newline_left(mask_a, bytes@, at as int, 64, at as int);
                    lemma_scan_skip(bytes@, at as int, at + 64);
                } else {
                    lemma_highest_newline(mask_a, bytes@, at as int);
                    lemma_scan_skip(bytes@, start_b as int, at + 64);
                }
            }
            let ghost mut pos_a: int = at as int;
            let ghost mut pos_b: int = at + 64;
            while mask_a != 0
                invariant
                    bytes@ == input.spec_bytes(),
                    at + 128 <= bytes.len(),
                    write_i <= WINDOW - 128,
                    count_a <= 64,
                    count_b <= 64,
                    mid == write_i + count_a,
                    first == closed_lines(bytes@, at as int).len(),
                    closed_lines(bytes@, at + 64).len() == first + count_a,
                    all == closed_lines(bytes@, at + 128),
                    all.len() == first + count_a + count_b,
                    at <= pos_a <= at + 64,
                    at + 64 <= pos_b <= at + 128,
                    marks_newlines(mask_a, bytes@, at as int, 64, pos_a),
                    marks_newlines(mask_b, bytes@, at + 64, 64, pos_b),
                    start_a == crate::lines::line_start(bytes@, pos_a),
                    start_b == crate::lines::line_start(bytes@, pos_b),
                    write_a == write_i + closed_lines(bytes@, pos_a).len() - first,
                    write_b == write_i + closed_lines(bytes@, pos_b).len() - first,
                    write_b - mid <= write_a - write_i,
                    two_runs(
                        window@,
                        entry,
                        write_i as int,
                        write_a as int,
                        mid,
                        write_b as int,
                        all,
                        first,
                    ),
                decreases at + 64 - pos_a,
            {
                // stride A
                proof {
                    lemma_lowest_newline(mask_a, bytes@, at as int, 64, pos_a);
                }
                let end_a = at + mask_a.trailing_zeros() as usize;
                proof {
                    lemma_scan_skip(bytes@, pos_a, end_a as int);
                    lemma_scanned_edges(bytes@, end_a as int, start_a as int);
                    lemma_line_found(bytes@, end_a as int, at + 64);
                    lemma_line_found(bytes@, end_a as int, at + 128);
                }
                let line_a = cut(input, start_a, end_a);
                proof {
                    lemma_two_runs_first(
                        window@,
                        entry,
                        write_i as int,
                        write_a as int,
                        mid,
                        write_b as int,
                        all,
                        first,
                        line_a,
                    );
                    pos_a = end_a + 1;
                }
                window[write_a] = line_a;
                write_a += 1;
                start_a = end_a + 1;
                mask_a &= mask_a - 1;

                // stride B, whether or not it has a bit left: without one, the store
                // goes to the slot behind its last line, which is never appended
                let live = mask_b != 0;
                let end_b = at + 64 + lowest_bit_or_zero(mask_b) as usize;
                proof {
                    if live {
                        lemma_lowest_newline(mask_b, bytes@, at + 64, 64, pos_b);
                        lemma_scan_skip(bytes@, pos_b, end_b as int);
                        lemma_scanned_edges(bytes@, end_b as int, start_b as int);
                        lemma_line_found(bytes@, end_b as int, at + 128);
                    } else {
                        lemma_no_newline_left(mask_b, bytes@, at + 64, 64, pos_b);
                        lemma_scan_skip(bytes@, pos_b, at + 128);
                    }
                }
                let line_b = if live {
                    cut(input, start_b, end_b)
                } else {
                    ""
                };
                proof {
                    lemma_two_runs_second(
                        window@,
                        entry,
                        write_i as int,
                        write_a as int,
                        mid,
                        write_b as int,
                        all,
                        first,
                        line_b,
                    );
                    lemma_clear_lowest_wrapping(mask_b);
                }
                window[write_b] = line_b;
                if live {
                    write_b += 1;
                    start_b = end_b + 1;
                    proof {
                        pos_b = end_b + 1;
                    }
                }
                mask_b &= mask_b.wrapping_sub(1);
            }
            proof {
                lemma_no_newline_left(mask_a, bytes@, at as int, 64, pos_a);
                lemma_scan_skip(bytes@, pos_a, at + 64);
            }
            // stride A is done: what is left of stride B
            while mask_b != 0
                invariant
                    bytes@ == input.spec_bytes(),
                    at + 128 <= bytes.len(),
                    write_i <= WINDOW - 128,
                    count_a <= 64,
                    count_b <= 64,
                    mid == write_i + count_a,
                    first == closed_lines(bytes@, at as int).len(),
                    all == closed_lines(bytes@, at + 128),
                    all.len() == first + count_a + count_b,
                    at + 64 <= pos_b <= at + 128,
                    marks_newlines(mask_b, bytes@, at + 64, 64, pos_b),
                    start_b == crate::lines::line_start(bytes@, pos_b),
                    write_b == write_i + closed_lines(bytes@, pos_b).len() - first,
                    two_runs(
                        window@,
                        entry,
                        write_i as int,
                        mid,
                        mid,
                        write_b as int,
                        all,
                        first,
                    ),
                decreases at + 128 - pos_b,
            {
                proof {
                    lemma_lowest_newline(mask_b, bytes@, at + 64, 64, pos_b);
                }
                let end_b = at + 64 + mask_b.trailing_zeros() as usize;
                proof {
                    lemma_scan_skip(bytes@, pos_b, end_b as int);
                    lemma_scanned_edges(bytes@, end_b as int, start_b as int);
                    lemma_line_found(bytes@, end_b as int, at + 128);
                }
                let line_b = cut(input, start_b, end_b);
                proof {
                    lemma_two_runs_second(
                        window@,
                        entry,
                        write_i as int,
                        mid,
                        mid,
                        write_b as int,
                        all,
                        first,
                        line_b,
                    );
                    pos_b = end_b + 1;
                }
                window[write_b] = line_b;
                write_b += 1;
                start_b = end_b + 1;
                mask_b &= mask_b - 1;
            }
            proof {
                lemma_no_newline_left(mask_b, bytes@, at + 64, 64, pos_b);
                lemma_scan_skip(bytes@, pos_b, at + 128);
                lemma_two_runs_done(
                    bytes@,
                    at as int,
                    old(out)@,
                    out@,
                    window@,
                    entry,
                    write_i as int,
                    mid,
                    write_b as int,
                );
            }
            write_i += count_a + count_b;
            line_start = start_b;
            pair_i += 1;
        }
        let ghost held = out@;
        out.extend_from_slice(&window[0..write_i]);
        assert(out@ =~= held + window@.subrange(0, write_i as int));
    }
    tail(line_start, 128, input, out, Ghost(old(out)@));
}

/// Appends the lines of `input` to `out`, scanning two strides of 64 bytes
/// in each round, the mask of a stride joined from two masks of 32 bytes.
/// Each stride has a write cursor of its own in the reservation window, the
/// second one behind all that the first stride will store, so that the bits
/// of the two masks are taken in turn and neither chain waits for the other.
/// While the first stride has a bit left, the second one stores in every
/// round: with no bit left it stores into the slot behind its last line,
/// which is not appended.
pub fn avx2_unrollx2_interleavex2<'input>(input: &'input str, out: &mut Vec<&'input str>)
    ensures
        appends_lines(old(out)@, final(out)@, split_lines(input.spec_bytes())),
{
    interleavex2(input, out, false)
}

/// Appends the lines of `input` to `out` as [`avx2_unrollx2_interleavex2`]
/// does, the mask of a stride joined from four masks of 16 bytes.
pub fn sse42_unrollx4_interleavex2<'input>(input: &'input str, out: &mut Vec<&'input str>)
    ensures
        appends_lines(old(out)@, final(out)@, split_lines(input.spec_bytes())),
{
    interleavex2(input, out, true)
}

} // verus!
