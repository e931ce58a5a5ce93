//! The reservation window that keeps growth of the output out of the hot
//! loops.
//!
//! A kernel that fills its output through a window stores what it finds by
//! index in an array of fixed size, without touching the output, and appends
//! the filled part of the array to the output in one step. Its inner loop
//! goes on only while the window has room for all that one more chunk can
//! add, so no store can fall outside the window. Slots behind the filled
//! part may hold anything: they are never appended.

use vstd::prelude::*;

verus! {

/// The number of slots of the window of the kernels that find at most 16
/// lines in a chunk.
pub const WINDOW_SMALL: usize = 64;

/// The number of slots of the window of the other kernels.
pub const WINDOW: usize = 256;

/// An item stored in the next free slot of a window follows what the output
/// and the filled part of the window held before.
pub proof fn lemma_staged_push<T>(out: Seq<T>, window: Seq<T>, write_i: int, item: T)
    requires
        0 <= write_i < window.len(),
    ensures
        (out + window.subrange(0, write_i)).push(item) == out + window.update(
            write_i,
            item,
        ).subrange(0, write_i + 1),
{
    assert((out + window.subrange(0, write_i)).push(item) =~= out + window.update(
        write_i,
        item,
    ).subrange(0, write_i + 1));
}

/// A store behind the filled part of a window leaves the filled part as it
/// is.
pub proof fn lemma_staged_keep<T>(out: Seq<T>, window: Seq<T>, write_i: int, at: int, item: T)
    requires
        0 <= write_i <= at < window.len(),
    ensures
        out + window.update(at, item).subrange(0, write_i) == out + window.subrange(0, write_i),
{
    assert(out + window.update(at, item).subrange(0, write_i) =~= out + window.subrange(
        0,
        write_i,
    ));
}

} // verus!
