//! The slice family: each line is reported as a view into the input.
//!
//! A kernel appends to the container it is given one view for each line of
//! the input, in order: every line that a newline ends, and what follows the
//! last newline unless that is empty. The views never hold a newline.

pub mod x86_64;

use crate::lines::{
    closed_lines, join_lines, lemma_join_split, lemma_line_start, lemma_lines_hold_no_newline,
    lemma_scan_skip, split_lines, without_final_newline, NEWLINE,
};
use crate::text::cut;
use vstd::prelude::*;
use vstd::string::StringSliceAdditionalSpecFns;
use vstd::utf8::encode_utf8_decode_utf8;

verus! {

/// `after` is `before` with one view appended for each of `lines`, the bytes
/// of the view being the line.
pub open spec fn appends_lines(before: Seq<&str>, after: Seq<&str>, lines: Seq<Seq<u8>>) -> bool {
    &&& after.len() == before.len() + lines.len()
    &&& forall|i: int| 0 <= i < before.len() ==> after[i] == before[i]
    &&& forall|i: int|
        before.len() <= i < after.len() ==> (#[trigger] after[i]).spec_bytes() == lines[i
            - before.len()]
}

/// What a scan that has passed the first `pos` bytes has to show: where the
/// open line starts, and behind what the container held `before` one view for
/// each closed line.
pub open spec fn scanned(
    bytes: Seq<u8>,
    pos: int,
    start: int,
    before: Seq<&str>,
    out: Seq<&str>,
) -> bool {
    &&& 0 <= pos <= bytes.len()
    &&& start == crate::lines::line_start(bytes, pos)
    &&& appends_lines(before, out, closed_lines(bytes, pos))
}

/// A scan may pass over bytes that are no newline.
pub proof fn lemma_scanned_skip(
    bytes: Seq<u8>,
    pos: int,
    to: int,
    start: int,
    before: Seq<&str>,
    out: Seq<&str>,
)
    requires
        scanned(bytes, pos, start, before, out),
        pos <= to <= bytes.len(),
        forall|i: int| pos <= i < to ==> bytes[i] != NEWLINE,
    ensures
        scanned(bytes, to, start, before, out),
{
    lemma_scan_skip(bytes, pos, to);
}

/// A scan passes a newline by reporting the line that it ends.
pub proof fn lemma_scanned_push(
    bytes: Seq<u8>,
    pos: int,
    start: int,
    before: Seq<&str>,
    out: Seq<&str>,
    line: &str,
)
    requires
        scanned(bytes, pos, start, before, out),
        pos < bytes.len(),
        bytes[pos] == NEWLINE,
        line.spec_bytes() == bytes.subrange(start, pos),
    ensures
        scanned(bytes, pos + 1, pos + 1, before, out.push(line)),
{
    let after = out.push(line);
    let lines = closed_lines(bytes, pos + 1);
    assert forall|i: int| before.len() <= i < after.len() implies (#[trigger] after[i]).spec_bytes()
        == lines[i - before.len()] by {
        if i < out.len() {
            assert(after[i] == out[i]);
        }
    }
}

/// At the end of the buffer an open line with bytes in it is reported.
pub proof fn lemma_scanned_end(
    bytes: Seq<u8>,
    start: int,
    before: Seq<&str>,
    out: Seq<&str>,
    last: &str,
)
    requires
        scanned(bytes, bytes.len() as int, start, before, out),
        start != bytes.len(),
        last.spec_bytes() == bytes.subrange(start, bytes.len() as int),
    ensures
        appends_lines(before, out.push(last), split_lines(bytes)),
{
    let after = out.push(last);
    let lines = split_lines(bytes);
    assert forall|i: int| before.len() <= i < after.len() implies (#[trigger] after[i]).spec_bytes()
        == lines[i - before.len()] by {
        if i < out.len() {
            assert(after[i] == out[i]);
        }
    }
}

/// At the end of the buffer an empty open line is not reported.
pub proof fn lemma_scanned_end_empty(bytes: Seq<u8>, before: Seq<&str>, out: Seq<&str>)
    requires
        scanned(bytes, bytes.len() as int, bytes.len() as int, before, out),
    ensures
        appends_lines(before, out, split_lines(bytes)),
{
}

/// The offsets between which a scan cuts a line are line edges.
pub proof fn lemma_scanned_edges(bytes: Seq<u8>, pos: int, start: int)
    requires
        0 <= pos <= bytes.len(),
        start == crate::lines::line_start(bytes, pos),
    ensures
        0 <= start <= pos,
        crate::text::at_line_edge(bytes, start),
        pos == bytes.len() || bytes[pos] == NEWLINE ==> crate::text::at_line_edge(bytes, pos),
{
    lemma_line_start(bytes, pos);
}

/// The bytes of each of the views.
pub open spec fn view_bytes(views: Seq<&str>) -> Seq<Seq<u8>> {
    Seq::new(views.len(), |i: int| views[i].spec_bytes())
}

/// Concatenation law: the views that a kernel has put into an empty
/// container, joined with a newline between neighbours, give the input back,
/// but for a newline that ends it.
pub proof fn lemma_emitted_join(bytes: Seq<u8>, out: Seq<&str>)
    requires
        appends_lines(Seq::empty(), out, split_lines(bytes)),
    ensures
        join_lines(view_bytes(out)) == without_final_newline(bytes),
{
    assert(view_bytes(out) =~= split_lines(bytes));
    lemma_join_split(bytes);
}

/// Newline exclusion: no view that a kernel has appended holds a newline.
pub proof fn lemma_emitted_hold_no_newline(bytes: Seq<u8>, before: Seq<&str>, out: Seq<&str>)
    requires
        appends_lines(before, out, split_lines(bytes)),
    ensures
        forall|i: int, j: int|
            before.len() <= i < out.len() && 0 <= j < out[i].spec_bytes().len()
                ==> out[i].spec_bytes()[j] != NEWLINE,
{
    lemma_lines_hold_no_newline(bytes);
    assert forall|i: int, j: int|
        before.len() <= i < out.len() && 0 <= j < out[i].spec_bytes().len() implies out[i].spec_bytes()[j]
        != NEWLINE by {
        assert(out[i].spec_bytes() == split_lines(bytes)[i - before.len()]);
    }
}

/// Equivalence, and idempotence of repeated runs: two containers that held
/// the same, each filled from the same input, hold the same afterwards: as
/// many views, with the same bytes and the same characters. It does not
/// matter which kernels of the family filled them, two of them or one of
/// them twice.
pub proof fn lemma_kernels_agree(
    bytes: Seq<u8>,
    before: Seq<&str>,
    one: Seq<&str>,
    other: Seq<&str>,
)
    requires
        appends_lines(before, one, split_lines(bytes)),
        appends_lines(before, other, split_lines(bytes)),
    ensures
        one.len() == other.len(),
        forall|i: int|
            0 <= i < one.len() ==> one[i].spec_bytes() == other[i].spec_bytes() && one[i]@
                == other[i]@,
{
    assert forall|i: int| 0 <= i < one.len() implies one[i].spec_bytes() == other[i].spec_bytes()
        && one[i]@ == other[i]@ by {
        if i >= before.len() {
            encode_utf8_decode_utf8(one[i]@);
            encode_utf8_decode_utf8(other[i]@);
        }
    }
}

/// Appends the lines of `input` to `out`, which never shrinks. This is the
/// scalar reference: one byte at a time.
pub fn std_reuse<'input>(input: &'input str, out: &mut Vec<&'input str>)
    ensures
        appends_lines(old(out)@, final(out)@, split_lines(input.spec_bytes())),
{
    let bytes = input.as_bytes();
    let mut line_start: usize = 0;
    let mut i: usize = 0;
    while i < bytes.len()
        invariant
            bytes@ == input.spec_bytes(),
            i <= bytes.len(),
            scanned(bytes@, i as int, line_start as int, old(out)@, out@),
        decreases bytes.len() - i,
    {
        if bytes[i] == NEWLINE {
            proof {
                lemma_scanned_edges(bytes@, i as int, line_start as int);
            }
            let line = cut(input, line_start, i);
            proof {
                lemma_scanned_push(bytes@, i as int, line_start as int, old(out)@, out@, line);
            }
            out.push(line);
            line_start = i + 1;
        } else {
            proof {
                lemma_scanned_skip(
                    bytes@,
                    i as int,
                    i + 1,
                    line_start as int,
                    old(out)@,
                    out@,
                );
            }
        }
        i += 1;
    }
    if line_start != bytes.len() {
        proof {
            lemma_scanned_edges(bytes@, i as int, line_start as int);
        }
        let last = cut(input, line_start, bytes.len());
        proof {
            lemma_scanned_end(bytes@, line_start as int, old(out)@, out@, last);
        }
        out.push(last);
    } else {
        proof {
            lemma_scanned_end_empty(bytes@, old(out)@, out@);
        }
    }
}

/// The lines of `input`, in order. This is the scalar reference against
/// which every kernel of the family is held.
pub fn split(input: &str) -> (out: Vec<&str>)
    ensures
        view_bytes(out@) == split_lines(input.spec_bytes()),
        appends_lines(Seq::empty(), out@, split_lines(input.spec_bytes())),
{
    let mut out = Vec::new();
    std_reuse(input, &mut out);
    assert(view_bytes(out@) =~= split_lines(input.spec_bytes()));
    out
}

} // verus!
