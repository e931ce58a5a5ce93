//! Views into a `&str` by byte offsets.
//!
//! A newline is an ASCII byte, and in UTF-8 an ASCII byte never stands inside
//! the encoding of another character. So a `&str` can always be cut at a
//! newline and right behind one.

use crate::lines::NEWLINE;
use vstd::prelude::*;
use vstd::string::StringSliceAdditionalSpecFns;
use vstd::utf8::*;

verus! {

/// In valid UTF-8 a character begins at an ASCII byte, and another one (or
/// the end) right behind it.
pub proof fn lemma_ascii_byte_boundaries(bytes: Seq<u8>, at: int)
    requires
        valid_utf8(bytes),
        0 <= at < bytes.len(),
        bytes[at] <= 0x7f,
    ensures
        is_char_boundary(bytes, at),
        is_char_boundary(bytes, at + 1),
    decreases bytes.len(),
{
    is_char_boundary_iff_not_is_continuation_byte(bytes, at);
    reveal_with_fuel(is_char_boundary, 2);
    if at > 0 {
        let first = length_of_first_scalar(bytes);
        let rest = pop_first_scalar(bytes);
        assert(is_char_boundary(rest, at - first));
        assert(rest[at - first] == bytes[at]);
        lemma_ascii_byte_boundaries(rest, at - first);
    }
}

/// An offset at which a line may begin or end: the start of the buffer, its
/// end, a newline, or the byte behind a newline.
pub open spec fn at_line_edge(bytes: Seq<u8>, at: int) -> bool {
    &&& 0 <= at <= bytes.len()
    &&& (at == 0 || at == bytes.len() || bytes[at] == NEWLINE || bytes[at - 1] == NEWLINE)
}

/// Every line edge of valid UTF-8 is a character boundary.
pub proof fn lemma_line_edge_is_boundary(bytes: Seq<u8>, at: int)
    requires
        valid_utf8(bytes),
        at_line_edge(bytes, at),
    ensures
        is_char_boundary(bytes, at),
{
    if at == 0 || at == bytes.len() {
        is_char_boundary_start_end_of_seq(bytes);
    } else if bytes[at] == NEWLINE {
        lemma_ascii_byte_boundaries(bytes, at);
    } else {
        lemma_ascii_byte_boundaries(bytes, at - 1);
    }
}

/// The view of `input` from byte `start` up to byte `end`, both of them line
/// edges.
pub fn cut<'a>(input: &'a str, start: usize, end: usize) -> (line: &'a str)
    requires
        start <= end,
        at_line_edge(input.spec_bytes(), start as int),
        at_line_edge(input.spec_bytes(), end as int),
    ensures
        line.spec_bytes() == input.spec_bytes().subrange(start as int, end as int),
{
    let ghost bytes = input.spec_bytes();
    proof {
        encode_utf8_valid_utf8(input@);
        lemma_line_edge_is_boundary(bytes, start as int);
        lemma_line_edge_is_boundary(bytes, end as int);
    }
    let (head, _) = input.split_at(end);
    proof {
        let prefix = bytes.subrange(0, end as int);
        assert(head.spec_bytes() == prefix);
        valid_utf8_split(bytes, end as int);
        if start < end {
            is_char_boundary_iff_not_is_continuation_byte(bytes, start as int);
            is_char_boundary_iff_not_is_continuation_byte(prefix, start as int);
        } else {
            is_char_boundary_start_end_of_seq(prefix);
        }
    }
    let (_, line) = head.split_at(start);
    assert(line.spec_bytes() =~= bytes.subrange(start as int, end as int));
    line
}

} // verus!
