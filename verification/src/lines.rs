//! The mathematical model of a buffer's lines, and the laws it obeys.

use vstd::prelude::*;

verus! {

/// The one byte that ends a line. No other byte is a delimiter.
pub const NEWLINE: u8 = 0x0A;

/// The offsets of the newline bytes among the first `upto` bytes, in
/// increasing order.
pub open spec fn newline_offsets(bytes: Seq<u8>, upto: int) -> Seq<int>
    decreases upto,
{
    if upto <= 0 {
        Seq::empty()
    } else if bytes[upto - 1] == NEWLINE {
        newline_offsets(bytes, upto - 1).push(upto - 1)
    } else {
        newline_offsets(bytes, upto - 1)
    }
}

/// Where the line around offset `upto` begins: right behind the last newline
/// among the first `upto` bytes, or at 0 when there is none.
pub open spec fn line_start(bytes: Seq<u8>, upto: int) -> int
    decreases upto,
{
    if upto <= 0 {
        0
    } else if bytes[upto - 1] == NEWLINE {
        upto
    } else {
        line_start(bytes, upto - 1)
    }
}

/// The lines that a newline among the first `upto` bytes ends, each without
/// its newline, in order.
pub open spec fn closed_lines(bytes: Seq<u8>, upto: int) -> Seq<Seq<u8>>
    decreases upto,
{
    if upto <= 0 {
        Seq::empty()
    } else if bytes[upto - 1] == NEWLINE {
        closed_lines(bytes, upto - 1).push(bytes.subrange(line_start(bytes, upto - 1), upto - 1))
    } else {
        closed_lines(bytes, upto - 1)
    }
}

/// The lines of a buffer: every line that a newline ends, then what follows
/// the last newline unless that is empty.
pub open spec fn split_lines(bytes: Seq<u8>) -> Seq<Seq<u8>> {
    let n = bytes.len() as int;
    if line_start(bytes, n) == n {
        closed_lines(bytes, n)
    } else {
        closed_lines(bytes, n).push(bytes.subrange(line_start(bytes, n), n))
    }
}

/// Where line `k` of a buffer begins: at 0, or right behind the newline that
/// ends the line before.
pub open spec fn line_begin(bytes: Seq<u8>, k: int) -> int {
    if k <= 0 {
        0
    } else {
        newline_offsets(bytes, bytes.len() as int)[k - 1] + 1
    }
}

/// Where line `k` of a buffer ends: at its newline, or at the end of the
/// buffer if no newline ends it.
pub open spec fn line_end(bytes: Seq<u8>, k: int) -> int {
    if k < newline_offsets(bytes, bytes.len() as int).len() {
        newline_offsets(bytes, bytes.len() as int)[k]
    } else {
        bytes.len() as int
    }
}

/// The lines written one after the other with a newline between neighbours.
pub open spec fn join_lines(lines: Seq<Seq<u8>>) -> Seq<u8>
    decreases lines.len(),
{
    if lines.len() == 0 {
        Seq::empty()
    } else if lines.len() == 1 {
        lines[0]
    } else {
        join_lines(lines.drop_last()).push(NEWLINE) + lines.last()
    }
}

/// The buffer without its last byte if that is a newline, else the buffer.
pub open spec fn without_final_newline(bytes: Seq<u8>) -> Seq<u8> {
    if bytes.len() > 0 && bytes.last() == NEWLINE {
        bytes.drop_last()
    } else {
        bytes
    }
}

/// The offsets of the newline bytes at or behind `from` and before `upto`, in
/// increasing order.
pub open spec fn newline_offsets_from(bytes: Seq<u8>, from: int, upto: int) -> Seq<int> {
    newline_offsets(bytes, upto).skip(newline_offsets(bytes, from).len() as int)
}

/// The length of the longest prefix of `len` bytes that is made of whole
/// chunks of `chunk` bytes.
pub open spec fn whole_chunks(len: int, chunk: int) -> int {
    len - len % chunk
}

/// The whole chunks of a buffer end inside it, less than a chunk before its
/// end.
pub proof fn lemma_whole_chunks(len: int, chunk: int)
    requires
        0 <= len,
        0 < chunk,
    ensures
        0 <= len % chunk < chunk,
        len % chunk <= len,
        0 <= whole_chunks(len, chunk) <= len,
        whole_chunks(len, chunk) == (len / chunk) * chunk,
{
    vstd::arithmetic::div_mod::lemma_fundamental_div_mod(len, chunk);
    vstd::arithmetic::div_mod::lemma_mod_bound(len, chunk);
    vstd::arithmetic::div_mod::lemma_div_pos_is_pos(len, chunk);
    assert(chunk * (len / chunk) >= 0) by (nonlinear_arith)
        requires
            chunk > 0,
            len / chunk >= 0,
    ;
    assert(chunk * (len / chunk) == (len / chunk) * chunk) by (nonlinear_arith);
}

/// The line around `upto` begins at 0 or right behind a newline, and holds no
/// newline before `upto`.
pub proof fn lemma_line_start(bytes: Seq<u8>, upto: int)
    requires
        0 <= upto <= bytes.len(),
    ensures
        0 <= line_start(bytes, upto) <= upto,
        line_start(bytes, upto) > 0 ==> bytes[line_start(bytes, upto) - 1] == NEWLINE,
        forall|i: int| line_start(bytes, upto) <= i < upto ==> bytes[i] != NEWLINE,
    decreases upto,
{
    if upto > 0 && bytes[upto - 1] != NEWLINE {
        lemma_line_start(bytes, upto - 1);
    }
}

/// Scanning over bytes that are no newline changes nothing.
pub proof fn lemma_scan_skip(bytes: Seq<u8>, from: int, to: int)
    requires
        0 <= from <= to <= bytes.len(),
        forall|i: int| from <= i < to ==> bytes[i] != NEWLINE,
    ensures
        newline_offsets(bytes, to) == newline_offsets(bytes, from),
        line_start(bytes, to) == line_start(bytes, from),
        closed_lines(bytes, to) == closed_lines(bytes, from),
    decreases to - from,
{
    if from < to {
        lemma_scan_skip(bytes, from, to - 1);
    }
}

/// One closed line for each newline.
pub proof fn lemma_closed_lines_len(bytes: Seq<u8>, upto: int)
    requires
        0 <= upto <= bytes.len(),
    ensures
        closed_lines(bytes, upto).len() == newline_offsets(bytes, upto).len(),
        newline_offsets(bytes, upto).len() <= upto,
    decreases upto,
{
    if upto > 0 {
        lemma_closed_lines_len(bytes, upto - 1);
    }
}

/// The newline offsets of a prefix are exactly the offsets below its length
/// at which a newline stands, in strictly increasing order.
pub proof fn lemma_newline_offsets(bytes: Seq<u8>, upto: int)
    requires
        0 <= upto <= bytes.len(),
    ensures
        forall|k: int|
            0 <= k < newline_offsets(bytes, upto).len() ==> {
                &&& 0 <= #[trigger] newline_offsets(bytes, upto)[k] < upto
                &&& bytes[newline_offsets(bytes, upto)[k]] == NEWLINE
            },
        forall|j: int, k: int|
            0 <= j < k < newline_offsets(bytes, upto).len() ==> newline_offsets(bytes, upto)[j]
                < newline_offsets(bytes, upto)[k],
        forall|p: int|
            0 <= p < upto && bytes[p] == NEWLINE ==> newline_offsets(bytes, upto).contains(p),
    decreases upto,
{
    if upto > 0 {
        lemma_newline_offsets(bytes, upto - 1);
        let before = newline_offsets(bytes, upto - 1);
        let now = newline_offsets(bytes, upto);
        assert forall|p: int| 0 <= p < upto && bytes[p] == NEWLINE implies now.contains(p) by {
            if p < upto - 1 {
                let k = choose|k: int| 0 <= k < before.len() && before[k] == p;
                assert(now[k] == p);
            } else {
                assert(now[now.len() - 1] == p);
            }
        }
    }
}

/// The lines closed in a prefix stay as they are when the scan goes on.
pub proof fn lemma_closed_lines_prefix(bytes: Seq<u8>, upto: int, later: int)
    requires
        0 <= upto <= later <= bytes.len(),
    ensures
        closed_lines(bytes, upto).len() <= closed_lines(bytes, later).len(),
        forall|k: int|
            0 <= k < closed_lines(bytes, upto).len() ==> #[trigger] closed_lines(bytes, later)[k]
                == closed_lines(bytes, upto)[k],
    decreases later - upto,
{
    if upto < later {
        lemma_closed_lines_prefix(bytes, upto, later - 1);
    }
}

/// The offsets that a longer scan adds to those of a prefix lie at or behind
/// the end of the prefix.
pub proof fn lemma_newline_offsets_rank(bytes: Seq<u8>, upto: int, later: int)
    requires
        0 <= upto <= later <= bytes.len(),
    ensures
        newline_offsets(bytes, upto).len() <= newline_offsets(bytes, later).len(),
        forall|i: int|
            newline_offsets(bytes, upto).len() <= i < newline_offsets(bytes, later).len() ==> upto
                <= #[trigger] newline_offsets(bytes, later)[i] < later,
        forall|i: int|
            0 <= i < newline_offsets(bytes, upto).len() ==> #[trigger] newline_offsets(
                bytes,
                later,
            )[i] == newline_offsets(bytes, upto)[i],
    decreases later - upto,
{
    if upto < later {
        lemma_newline_offsets_rank(bytes, upto, later - 1);
    }
}

/// A scan from `from` on gets from `upto` to `upto + 1` as a scan from the
/// start does.
pub proof fn lemma_newline_offsets_from_step(bytes: Seq<u8>, from: int, upto: int)
    requires
        0 <= from <= upto < bytes.len(),
    ensures
        newline_offsets_from(bytes, from, from) == Seq::<int>::empty(),
        bytes[upto] == NEWLINE ==> newline_offsets_from(bytes, from, upto + 1)
            == newline_offsets_from(bytes, from, upto).push(upto),
        bytes[upto] != NEWLINE ==> newline_offsets_from(bytes, from, upto + 1)
            == newline_offsets_from(bytes, from, upto),
{
    lemma_newline_offsets_rank(bytes, from, upto);
    assert(newline_offsets_from(bytes, from, from) =~= Seq::<int>::empty());
    if bytes[upto] == NEWLINE {
        assert(newline_offsets_from(bytes, from, upto + 1) =~= newline_offsets_from(
            bytes,
            from,
            upto,
        ).push(upto));
    }
}

/// The offsets before `from` and those from `from` on make all of them.
pub proof fn lemma_newline_offsets_split(bytes: Seq<u8>, from: int, upto: int)
    requires
        0 <= from <= upto <= bytes.len(),
    ensures
        newline_offsets(bytes, upto) == newline_offsets(bytes, from) + newline_offsets_from(
            bytes,
            from,
            upto,
        ),
{
    lemma_newline_offsets_rank(bytes, from, upto);
    assert(newline_offsets(bytes, upto) =~= newline_offsets(bytes, from) + newline_offsets_from(
        bytes,
        from,
        upto,
    ));
}

proof fn lemma_closed_lines_are_spans(bytes: Seq<u8>, upto: int)
    requires
        0 <= upto <= bytes.len(),
    ensures
        closed_lines(bytes, upto).len() == newline_offsets(bytes, upto).len(),
        line_start(bytes, upto) == (if newline_offsets(bytes, upto).len() == 0 {
            0
        } else {
            newline_offsets(bytes, upto).last() + 1
        }),
        forall|k: int|
            0 <= k < closed_lines(bytes, upto).len() ==> #[trigger] closed_lines(bytes, upto)[k]
                == bytes.subrange(
                if k == 0 {
                    0
                } else {
                    newline_offsets(bytes, upto)[k - 1] + 1
                },
                newline_offsets(bytes, upto)[k],
            ),
    decreases upto,
{
    if upto > 0 {
        lemma_closed_lines_are_spans(bytes, upto - 1);
    }
}

/// Every line of a buffer is the part of the buffer between two offsets:
/// line `k` reaches from [`line_begin`] to [`line_end`]. There is one line
/// for each newline, and one more if bytes follow the last newline.
pub proof fn lemma_lines_are_spans(bytes: Seq<u8>)
    ensures
        split_lines(bytes).len() == newline_offsets(bytes, bytes.len() as int).len() + (if line_begin(
            bytes,
            newline_offsets(bytes, bytes.len() as int).len() as int,
        ) < bytes.len() {
            1int
        } else {
            0int
        }),
        forall|k: int|
            0 <= k < split_lines(bytes).len() ==> {
                &&& 0 <= line_begin(bytes, k) <= line_end(bytes, k) <= bytes.len()
                &&& #[trigger] split_lines(bytes)[k] == bytes.subrange(
                    line_begin(bytes, k),
                    line_end(bytes, k),
                )
            },
{
    let n = bytes.len() as int;
    lemma_closed_lines_are_spans(bytes, n);
    lemma_newline_offsets(bytes, n);
    lemma_line_start(bytes, n);
}

proof fn lemma_closed_lines_hold_no_newline(bytes: Seq<u8>, upto: int)
    requires
        0 <= upto <= bytes.len(),
    ensures
        forall|k: int, j: int|
            0 <= k < closed_lines(bytes, upto).len() && 0 <= j < closed_lines(bytes, upto)[k].len()
                ==> closed_lines(bytes, upto)[k][j] != NEWLINE,
    decreases upto,
{
    if upto > 0 {
        lemma_closed_lines_hold_no_newline(bytes, upto - 1);
        lemma_line_start(bytes, upto - 1);
        let before = closed_lines(bytes, upto - 1);
        let now = closed_lines(bytes, upto);
        assert forall|k: int, j: int| 0 <= k < now.len() && 0 <= j < now[k].len() implies now[k][j]
            != NEWLINE by {
            if k < before.len() {
                assert(now[k] == before[k]);
            } else {
                assert(now[k][j] == bytes[line_start(bytes, upto - 1) + j]);
            }
        }
    }
}

/// Newline exclusion: no line of a buffer holds a newline.
pub proof fn lemma_lines_hold_no_newline(bytes: Seq<u8>)
    ensures
        forall|k: int, j: int|
            0 <= k < split_lines(bytes).len() && 0 <= j < split_lines(bytes)[k].len()
                ==> split_lines(bytes)[k][j] != NEWLINE,
{
    let n = bytes.len() as int;
    lemma_closed_lines_hold_no_newline(bytes, n);
    lemma_line_start(bytes, n);
}

proof fn lemma_join_grows(lines: Seq<Seq<u8>>, last: Seq<u8>, more: Seq<u8>)
    ensures
        join_lines(lines.push(last + more)) == join_lines(lines.push(last)) + more,
{
    let a = lines.push(last + more);
    let b = lines.push(last);
    if lines.len() > 0 {
        assert(a.drop_last() =~= lines);
        assert(b.drop_last() =~= lines);
        assert(join_lines(a) =~= join_lines(b) + more);
    } else {
        assert(join_lines(a) =~= join_lines(b) + more);
    }
}

proof fn lemma_join_prefix(bytes: Seq<u8>, upto: int)
    requires
        0 <= upto <= bytes.len(),
    ensures
        join_lines(closed_lines(bytes, upto).push(bytes.subrange(line_start(bytes, upto), upto)))
            == bytes.subrange(0, upto),
    decreases upto,
{
    let open = bytes.subrange(line_start(bytes, upto), upto);
    let all = closed_lines(bytes, upto).push(open);
    if upto <= 0 {
        assert(join_lines(all) =~= bytes.subrange(0, upto));
    } else {
        lemma_join_prefix(bytes, upto - 1);
        lemma_line_start(bytes, upto - 1);
        let before = bytes.subrange(line_start(bytes, upto - 1), upto - 1);
        if bytes[upto - 1] == NEWLINE {
            assert(all.drop_last() =~= closed_lines(bytes, upto));
            assert(join_lines(all) =~= bytes.subrange(0, upto));
        } else {
            assert(open =~= before + seq![bytes[upto - 1]]);
            lemma_join_grows(closed_lines(bytes, upto), before, seq![bytes[upto - 1]]);
            assert(join_lines(all) =~= bytes.subrange(0, upto));
        }
    }
}

/// Concatenation law: the lines of a buffer, joined with a newline between
/// neighbours, give the buffer back, but for a newline that ends it.
pub proof fn lemma_join_split(bytes: Seq<u8>)
    ensures
        join_lines(split_lines(bytes)) == without_final_newline(bytes),
{
    let n = bytes.len() as int;
    lemma_line_start(bytes, n);
    if line_start(bytes, n) != n {
        lemma_join_prefix(bytes, n);
        assert(bytes.subrange(0, n) =~= bytes);
    } else if n > 0 {
        lemma_line_start(bytes, n - 1);
        lemma_join_prefix(bytes, n - 1);
        assert(bytes.subrange(0, n - 1) =~= bytes.drop_last());
    }
}

} // verus!
