//! The compressed family: the newlines of the input as an index.
//!
//! The input is taken in blocks of [`BLOCK`] bytes, the last of which may be
//! shorter. The index holds, for each newline in order, the low 16 bits of
//! its offset, and for each block the place in that list where the block's
//! newlines begin.

pub mod x86_64;

use crate::lines::{
    lemma_newline_offsets, lemma_newline_offsets_from_step, lemma_newline_offsets_rank,
    lemma_newline_offsets_split, lemma_scan_skip, lemma_whole_chunks, newline_offsets,
    newline_offsets_from, whole_chunks, NEWLINE,
};
use vstd::prelude::*;
use vstd::string::StringSliceAdditionalSpecFns;

verus! {

/// The number of bytes of a block: as many as 16 bits can tell apart.
pub const BLOCK: usize = 65536;

/// The newlines of a buffer.
#[derive(Debug, PartialEq, Eq)]
pub struct LineIndex {
    /// Low 16 bits of each newline's offset, one for each newline, in order.
    pub lows: Vec<u16>,
    /// `high_starts[b]` is the first place in `lows` that belongs to block
    /// `b`, one for each block of the input.
    pub high_starts: Vec<usize>,
}

/// The low 16 bits of each of the offsets.
pub open spec fn low_bits(offsets: Seq<int>) -> Seq<u16> {
    Seq::new(offsets.len(), |k: int| (offsets[k] % 65536) as u16)
}

/// The number of blocks that `len` bytes take.
pub open spec fn block_count(len: int) -> int {
    (len + 65535) / 65536
}

/// For each of the first `blocks` blocks, the number of newlines before the
/// block, counted from `shift` on.
pub open spec fn block_starts(bytes: Seq<u8>, blocks: int, shift: int) -> Seq<usize> {
    Seq::new(
        blocks as nat,
        |b: int| (shift + newline_offsets(bytes, b * 65536).len()) as usize,
    )
}

impl LineIndex {
    /// This index is `before` followed by the index of `bytes`: the low bits
    /// of every newline offset, and where each block's run begins in `lows`.
    pub open spec fn extends(&self, before: &LineIndex, bytes: Seq<u8>) -> bool {
        &&& self.lows@ == before.lows@ + low_bits(newline_offsets(bytes, bytes.len() as int))
        &&& self.high_starts@ == before.high_starts@ + block_starts(
            bytes,
            block_count(bytes.len() as int),
            before.lows@.len() as int,
        )
    }

    /// This index is the index of `bytes` and holds nothing else.
    pub open spec fn indexes(&self, bytes: Seq<u8>) -> bool {
        &&& self.lows@ == low_bits(newline_offsets(bytes, bytes.len() as int))
        &&& self.high_starts@ == block_starts(bytes, block_count(bytes.len() as int), 0)
    }

    /// Place `i` of `lows` lies in the run of block `b`.
    pub open spec fn in_run(&self, b: int, i: int) -> bool {
        0 <= b < self.high_starts@.len() && self.high_starts@[b] <= i < self.run_end(b)
    }

    /// Where in `lows` the run of block `b` ends: where the next block's run
    /// begins, or at the end of `lows` for the last block.
    pub open spec fn run_end(&self, b: int) -> int {
        if b + 1 < self.high_starts@.len() {
            self.high_starts@[b + 1] as int
        } else {
            self.lows@.len() as int
        }
    }
}

/// What a scan that has passed the first `pos` bytes and has entered
/// `blocks` blocks has to show in `lows` and `starts`, behind what they held
/// before.
pub open spec fn indexed(
    bytes: Seq<u8>,
    pos: int,
    blocks: int,
    before: &LineIndex,
    lows: Seq<u16>,
    starts: Seq<usize>,
) -> bool {
    &&& 0 <= pos <= bytes.len()
    &&& 0 <= blocks
    &&& lows == before.lows@ + low_bits(newline_offsets(bytes, pos))
    &&& starts == before.high_starts@ + block_starts(bytes, blocks, before.lows@.len() as int)
}

/// A scan may pass over bytes that are no newline.
pub proof fn lemma_indexed_skip(
    bytes: Seq<u8>,
    pos: int,
    to: int,
    blocks: int,
    before: &LineIndex,
    lows: Seq<u16>,
    starts: Seq<usize>,
)
    requires
        indexed(bytes, pos, blocks, before, lows, starts),
        pos <= to <= bytes.len(),
        forall|i: int| pos <= i < to ==> bytes[i] != NEWLINE,
    ensures
        indexed(bytes, to, blocks, before, lows, starts),
{
    lemma_scan_skip(bytes, pos, to);
}

/// A scan passes a newline by reporting the low bits of its offset.
pub proof fn lemma_indexed_push(
    bytes: Seq<u8>,
    pos: int,
    blocks: int,
    before: &LineIndex,
    lows: Seq<u16>,
    starts: Seq<usize>,
    low: u16,
)
    requires
        indexed(bytes, pos, blocks, before, lows, starts),
        pos < bytes.len(),
        bytes[pos] == NEWLINE,
        low == pos % 65536,
    ensures
        indexed(bytes, pos + 1, blocks, before, lows.push(low), starts),
{
    assert(lows.push(low) =~= before.lows@ + low_bits(newline_offsets(bytes, pos + 1)));
}

/// A scan enters the next block by reporting how long `lows` is.
pub proof fn lemma_indexed_enter(
    bytes: Seq<u8>,
    pos: int,
    blocks: int,
    before: &LineIndex,
    lows: Seq<u16>,
    starts: Seq<usize>,
)
    requires
        indexed(bytes, pos, blocks, before, lows, starts),
        pos == blocks * 65536,
        lows.len() <= usize::MAX,
    ensures
        indexed(bytes, pos, blocks + 1, before, lows, starts.push(lows.len() as usize)),
{
    assert(starts.push(lows.len() as usize) =~= before.high_starts@ + block_starts(
        bytes,
        blocks + 1,
        before.lows@.len() as int,
    ));
}

/// What is known when a scan has passed the whole chunks of `chunk` bytes
/// of the block at `block_base`, which is `block_len` bytes long: one more
/// block is entered; behind a block that is not the last one the scan
/// stands at the start of the next block, and behind the last block it has
/// passed every whole chunk of the buffer.
pub proof fn lemma_block_passed(len: int, block_base: int, block_len: int, blocks: int, chunk: int)
    requires
        0 <= blocks,
        block_base == blocks * 65536,
        block_base < len,
        block_len == (if len - block_base < 65536 {
            len - block_base
        } else {
            65536
        }),
        chunk == 16 || chunk == 32 || chunk == 64,
    ensures
        block_count(block_base + block_len) == blocks + 1,
        block_base + block_len < len ==> block_base + (block_len / chunk) * chunk == (blocks + 1)
            * 65536 && block_base + block_len == (blocks + 1) * 65536,
        block_base + block_len == len ==> block_base + (block_len / chunk) * chunk
            == whole_chunks(len, chunk),
        0 <= (block_len / chunk) * chunk <= block_len,
{
    let every: int = 65536int / chunk;
    assert(chunk * every == 65536);
    lemma_whole_chunks(block_len, chunk);
    // one more block
    vstd::arithmetic::div_mod::lemma_fundamental_div_mod_converse(
        block_base + block_len + 65535,
        65536,
        blocks + 1,
        block_len - 1,
    );
    // the chunks of the blocks before make no difference to what is left over
    assert(chunk * (blocks * every) == blocks * 65536) by (nonlinear_arith)
        requires
            chunk * every == 65536,
    ;
    vstd::arithmetic::div_mod::lemma_mod_multiples_vanish(blocks * every, block_len, chunk);
    assert((block_base + block_len) % chunk == block_len % chunk);
    if block_len == 65536 {
        vstd::arithmetic::div_mod::lemma_fundamental_div_mod_converse(65536, chunk, every, 0);
    }
}

/// The low bits of two runs of offsets, one behind the other.
pub proof fn lemma_low_bits_add(first: Seq<int>, second: Seq<int>)
    ensures
        low_bits(first + second) == low_bits(first) + low_bits(second),
{
    assert(low_bits(first + second) =~= low_bits(first) + low_bits(second));
}

/// Compressed reconstruction: in the index of a buffer the runs of the
/// blocks lie one behind the other and fill `lows`, the first of them
/// beginning at 0; in the run of block `b` each entry, with `b * 65536`
/// added, is the offset of the newline that the entry stands for; every
/// entry lies in the run of the block in which its newline stands; and the
/// offsets so found are all the offsets at which the buffer holds a newline,
/// in strictly increasing order.
pub proof fn lemma_index_reconstructs(bytes: Seq<u8>, index: &LineIndex)
    requires
        index.indexes(bytes),
    ensures
        index.high_starts@.len() == block_count(bytes.len() as int),
        index.lows@.len() == newline_offsets(bytes, bytes.len() as int).len(),
        index.high_starts@.len() > 0 ==> index.high_starts@[0] == 0,
        index.high_starts@.len() == 0 ==> index.lows@.len() == 0,
        forall|b: int|
            0 <= b < index.high_starts@.len() ==> (#[trigger] index.high_starts@[b])
                <= index.run_end(b) <= index.lows@.len(),
        forall|b: int, i: int| #[trigger]
            index.in_run(b, i) ==> b * 65536 + index.lows@[i] == newline_offsets(
                bytes,
                bytes.len() as int,
            )[i],
        forall|i: int|
            0 <= i < index.lows@.len() ==> index.in_run(
                #[trigger] newline_offsets(bytes, bytes.len() as int)[i] / 65536,
                i,
            ),
        forall|j: int, k: int|
            0 <= j < k < newline_offsets(bytes, bytes.len() as int).len() ==> newline_offsets(
                bytes,
                bytes.len() as int,
            )[j] < newline_offsets(bytes, bytes.len() as int)[k],
        forall|p: int|
            0 <= p < bytes.len() ==> (bytes[p] == NEWLINE <==> newline_offsets(
                bytes,
                bytes.len() as int,
            ).contains(p)),
{
    let n = bytes.len() as int;
    let offsets = newline_offsets(bytes, n);
    let blocks = block_count(n);
    lemma_newline_offsets(bytes, n);
    assert forall|b: int| 0 <= b < blocks implies run_facts(bytes, index, b) by {
        lemma_run(bytes, index, b);
    }
    assert forall|b: int| 0 <= b < index.high_starts@.len() implies (
    #[trigger] index.high_starts@[b]) <= index.run_end(b) <= index.lows@.len() by {
        assert(run_facts(bytes, index, b));
    }
    assert forall|b: int, i: int| #[trigger] index.in_run(b, i) implies b * 65536 + index.lows@[i]
        == offsets[i] by {
        assert(run_facts(bytes, index, b));
        let end = block_end(n, b);
        lemma_newline_offsets_rank(bytes, b * 65536, end);
        lemma_newline_offsets_rank(bytes, end, n);
        assert(offsets[i] == newline_offsets(bytes, end)[i]);
    }
    assert forall|i: int| 0 <= i < index.lows@.len() implies index.in_run(
        #[trigger] offsets[i] / 65536,
        i,
    ) by {
        let b = offsets[i] / 65536;
        assert(0 <= b < blocks);
        assert(run_facts(bytes, index, b));
        let end = block_end(n, b);
        lemma_newline_offsets_rank(bytes, b * 65536, n);
        lemma_newline_offsets_rank(bytes, end, n);
        lemma_newline_offsets(bytes, b * 65536);
        lemma_newline_offsets(bytes, end);
    }
    if blocks == 0 {
        assert(n == 0);
    }
}

/// Where block `b` of a buffer of `len` bytes ends.
spec fn block_end(len: int, b: int) -> int {
    if (b + 1) * 65536 < len {
        (b + 1) * 65536
    } else {
        len
    }
}

/// The run of block `b` is made of the newlines of block `b`.
spec fn run_facts(bytes: Seq<u8>, index: &LineIndex, b: int) -> bool {
    let n = bytes.len() as int;
    &&& 0 <= b * 65536 < n
    &&& index.high_starts@[b] == newline_offsets(bytes, b * 65536).len()
    &&& index.run_end(b) == newline_offsets(bytes, block_end(n, b)).len()
    &&& index.high_starts@[b] <= index.run_end(b) <= index.lows@.len()
}

proof fn lemma_run(bytes: Seq<u8>, index: &LineIndex, b: int)
    requires
        index.indexes(bytes),
        0 <= b < block_count(bytes.len() as int),
    ensures
        run_facts(bytes, index, b),
{
    let n = bytes.len() as int;
    let end = block_end(n, b);
    lemma_newline_offsets_rank(bytes, b * 65536, end);
    lemma_newline_offsets_rank(bytes, end, n);
    assert(index.lows@.len() == index.lows.len());
    if b + 1 < block_count(n) {
        assert(index.high_starts@[b + 1] == newline_offsets(bytes, (b + 1) * 65536).len());
    }
}

/// Equivalence, and idempotence of repeated runs: two indexes that held the
/// same, each extended from the same input, hold the same afterwards. It
/// does not matter which kernels of the family extended them, two of them
/// or one of them twice.
pub proof fn lemma_indexes_agree(
    bytes: Seq<u8>,
    before: &LineIndex,
    one: &LineIndex,
    other: &LineIndex,
)
    requires
        one.extends(before, bytes),
        other.extends(before, bytes),
    ensures
        one.lows@ == other.lows@,
        one.high_starts@ == other.high_starts@,
{
}

/// Appends to `out` the index of `input`. This is the scalar reference: one
/// byte at a time.
pub fn iter(input: &str, out: &mut LineIndex)
    ensures
        final(out).extends(old(out), input.spec_bytes()),
{
    let bytes = input.as_bytes();
    let mut block_base: usize = 0;
    let ghost mut blocks: int = 0;
    assert(out.lows@ =~= old(out).lows@ + low_bits(newline_offsets(bytes@, 0)));
    assert(out.high_starts@ =~= old(out).high_starts@ + block_starts(
        bytes@,
        0,
        old(out).lows@.len() as int,
    ));
    while block_base < bytes.len()
        invariant
            bytes@ == input.spec_bytes(),
            block_base <= bytes.len(),
            blocks == block_count(block_base as int),
            block_base < bytes.len() ==> block_base == blocks * 65536,
            indexed(bytes@, block_base as int, blocks, old(out), out.lows@, out.high_starts@),
        decreases bytes.len() - block_base,
    {
        let block_len = if bytes.len() - block_base < BLOCK {
            bytes.len() - block_base
        } else {
            BLOCK
        };
        let start = out.lows.len();
        proof {
            lemma_indexed_enter(
                bytes@,
                block_base as int,
                blocks,
                old(out),
                out.lows@,
                out.high_starts@,
            );
            blocks = blocks + 1;
        }
        out.high_starts.push(start);
        let mut idx: usize = 0;
        while idx < block_len
            invariant
                bytes@ == input.spec_bytes(),
                idx <= block_len <= BLOCK,
                block_base + block_len <= bytes.len(),
                block_base == (blocks - 1) * 65536,
                indexed(
                    bytes@,
                    block_base + idx,
                    blocks,
                    old(out),
                    out.lows@,
                    out.high_starts@,
                ),
            decreases block_len - idx,
        {
            if bytes[block_base + idx] == NEWLINE {
                proof {
                    lemma_indexed_push(
                        bytes@,
                        block_base + idx,
                        blocks,
                        old(out),
                        out.lows@,
                        out.high_starts@,
                        idx as u16,
                    );
                }
                out.lows.push(idx as u16);
            } else {
                proof {
                    lemma_indexed_skip(
                        bytes@,
                        block_base + idx,
                        block_base + idx + 1,
                        blocks,
                        old(out),
                        out.lows@,
                        out.high_starts@,
                    );
                }
            }
            idx += 1;
        }
        block_base += block_len;
    }
}

/// Appends to `out.lows` the low bits of the offsets of the newlines behind
/// the last whole chunk of `chunk_size` bytes. The blocks are taken to be
/// entered already: `out.high_starts` stays as it is.
pub fn tail(chunk_size: usize, input: &str, out: &mut LineIndex)
    requires
        chunk_size > 0,
    ensures
        final(out).high_starts@ == old(out).high_starts@,
        final(out).lows@ == old(out).lows@ + low_bits(
            newline_offsets_from(
                input.spec_bytes(),
                whole_chunks(input.spec_bytes().len() as int, chunk_size as int),
                input.spec_bytes().len() as int,
            ),
        ),
{
    let bytes = input.as_bytes();
    proof {
        lemma_whole_chunks(bytes.len() as int, chunk_size as int);
    }
    let base = bytes.len() - bytes.len() % chunk_size;
    let mut i: usize = base;
    proof {
        if base < bytes.len() {
            lemma_newline_offsets_from_step(bytes@, base as int, base as int);
        } else {
            assert(newline_offsets_from(bytes@, base as int, base as int) =~= Seq::<int>::empty());
        }
        assert(out.lows@ =~= old(out).lows@ + low_bits(
            newline_offsets_from(bytes@, base as int, base as int),
        ));
    }
    while i < bytes.len()
        invariant
            bytes@ == input.spec_bytes(),
            base <= i <= bytes.len(),
            out.high_starts@ == old(out).high_starts@,
            out.lows@ == old(out).lows@ + low_bits(
                newline_offsets_from(bytes@, base as int, i as int),
            ),
        decreases bytes.len() - i,
    {
        proof {
            lemma_newline_offsets_from_step(bytes@, base as int, i as int);
        }
        if bytes[i] == NEWLINE {
            let low = (i % BLOCK) as u16;
            proof {
                assert(out.lows@.push(low) =~= old(out).lows@ + low_bits(
                    newline_offsets_from(bytes@, base as int, i + 1),
                ));
            }
            out.lows.push(low);
        }
        i += 1;
    }
}

} // verus!
