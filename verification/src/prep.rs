//! Input preparation: buffers with a known mix of line lengths.
//!
//! Each function overwrites a scratch buffer and returns the length of the
//! prefix that a benchmark stage is to scan.
//!
//! [`prep_vec_range`] takes its line lengths from the closed interval
//! `[M, N]` in a fixed order: round `i` advances the cursor by
//! `M + i % (N - M + 1)`, so the lengths run through the interval again and
//! again, from its lower end upwards. The same buffer always gets the same
//! newlines.

use crate::lines::NEWLINE;
use vstd::prelude::*;

verus! {

/// The byte of which the lines are made: the letter `a`.
pub const FILLER: u8 = 0x61;

/// No more than this many bytes of a buffer get lines of mixed lengths.
pub const RANGE_CAP: usize = 256 * 1024 * 1024;

/// No more than this many bytes of a buffer of newlines are scanned.
pub const ALL_LINES_CAP: usize = 64 * 1024 * 1024;

/// `limit` if the buffer is longer than that, else the length of the buffer.
pub open spec fn capped(len: int, limit: int) -> int {
    if len < limit {
        len
    } else {
        limit
    }
}

/// By how much round `i` advances the cursor: a value from `m` to `n`.
pub open spec fn advance(m: int, n: int, i: int) -> int {
    m + i % (n - m + 1)
}

/// Where the cursor stands after `rounds` rounds.
pub open spec fn cursor(m: int, n: int, rounds: int) -> int
    decreases rounds,
{
    if rounds <= 0 {
        0
    } else {
        cursor(m, n, rounds - 1) + advance(m, n, rounds - 1)
    }
}

/// How many rounds a buffer of `len` bytes gets: as many as lines of the
/// mean length fit into the capped prefix.
pub open spec fn rounds(len: int, m: int, n: int) -> int {
    capped(len, RANGE_CAP as int) * 2 / (n + m)
}

/// Whether the cursor stands at `at` after one of the first `rounds` rounds.
pub open spec fn marked(m: int, n: int, rounds: int, at: int) -> bool
    decreases rounds,
{
    rounds > 0 && (cursor(m, n, rounds) == at || marked(m, n, rounds - 1, at))
}

/// The cursor never moves back.
pub proof fn lemma_cursor_grows(m: int, n: int, early: int, late: int)
    requires
        0 <= m <= n,
        0 <= early <= late,
    ensures
        0 <= cursor(m, n, early) <= cursor(m, n, late),
    decreases late,
{
    if late > 0 {
        assert(0 <= (late - 1) % (n - m + 1)) by (nonlinear_arith)
            requires
                n - m + 1 > 0,
        ;
        if early < late {
            lemma_cursor_grows(m, n, early, late - 1);
        } else {
            lemma_cursor_grows(m, n, early - 1, late - 1);
        }
    }
}

/// Twice the way of the cursor is at most the number of rounds times the sum
/// of the shortest and the longest advance. So after the rounds of a buffer
/// the cursor stands inside the capped prefix or right behind it.
pub proof fn lemma_cursor_bound(m: int, n: int, k: int)
    requires
        0 <= m <= n,
        0 <= k,
    ensures
        2 * cursor(m, n, k) <= k * (m + n),
    decreases k,
{
    let r = n - m + 1;
    if k > 0 {
        if k <= r {
            lemma_cursor_first_cycle(m, n, k);
            assert(2 * k * m + k * (k - 1) <= k * (m + n)) by (nonlinear_arith)
                requires
                    0 < k <= n - m + 1,
            ;
        } else {
            lemma_cursor_bound(m, n, k - r);
            lemma_cursor_shift(m, n, k - r);
            lemma_cursor_first_cycle(m, n, r);
            assert(2 * r * m + r * (r - 1) == r * (m + n)) by (nonlinear_arith)
                requires
                    r == n - m + 1,
            ;
            assert((k - r) * (m + n) + r * (m + n) == k * (m + n)) by (nonlinear_arith);
        }
    }
}

proof fn lemma_cursor_first_cycle(m: int, n: int, k: int)
    requires
        0 <= m <= n,
        0 <= k <= n - m + 1,
    ensures
        2 * cursor(m, n, k) == 2 * k * m + k * (k - 1),
    decreases k,
{
    if k > 0 {
        let j = k - 1;
        lemma_cursor_first_cycle(m, n, j);
        vstd::arithmetic::div_mod::lemma_small_mod(j as nat, (n - m + 1) as nat);
        assert(advance(m, n, j) == m + j);
        assert(cursor(m, n, k) == cursor(m, n, j) + m + j);
        assert(2 * j * m + j * (j - 1) + 2 * (m + j) == 2 * k * m + k * (k - 1))
            by (nonlinear_arith)
            requires
                j == k - 1,
        ;
    } else {
        assert(2 * k * m + k * (k - 1) == 0) by (nonlinear_arith)
            requires
                k == 0,
        ;
    }
}

proof fn lemma_cursor_shift(m: int, n: int, from: int)
    requires
        0 <= m <= n,
        0 <= from,
    ensures
        cursor(m, n, from + (n - m + 1)) - cursor(m, n, from) == cursor(m, n, n - m + 1),
    decreases from,
{
    let r = n - m + 1;
    if from > 0 {
        lemma_cursor_shift(m, n, from - 1);
        vstd::arithmetic::div_mod::lemma_mod_add_multiples_vanish(from - 1, r);
        assert(advance(m, n, from - 1 + r) == advance(m, n, from - 1));
        assert(cursor(m, n, from + r) == cursor(m, n, from + r - 1) + advance(
            m,
            n,
            from + r - 1,
        ));
    }
}

/// `<[u8]>::fill` of the standard library on the whole of a vector. Its
/// documentation says that it fills the slice with the value: the length
/// stays, and every byte is `value` afterwards.
#[verifier::external_body]
fn fill(buffer: &mut Vec<u8>, value: u8)
    ensures
        final(buffer)@ == Seq::new(old(buffer)@.len(), |i: int| value),
{
    buffer.fill(value);
}

/// Makes the whole buffer one line without a newline, and returns its
/// length.
pub fn prep_single_line(vec: &mut Vec<u8>) -> (active: usize)
    ensures
        active == old(vec)@.len(),
        final(vec)@ == Seq::new(old(vec)@.len(), |i: int| FILLER),
{
    fill(vec, FILLER);
    vec.len()
}

/// Makes every byte of the buffer a newline, and returns the length of the
/// buffer or [`ALL_LINES_CAP`] if the buffer is longer.
pub fn prep_all_lines(vec: &mut Vec<u8>) -> (active: usize)
    ensures
        active == capped(old(vec)@.len() as int, ALL_LINES_CAP as int),
        final(vec)@ == Seq::new(old(vec)@.len(), |i: int| NEWLINE),
{
    fill(vec, NEWLINE);
    if vec.len() < ALL_LINES_CAP {
        vec.len()
    } else {
        ALL_LINES_CAP
    }
}

/// Fills the buffer with lines whose lengths run through `[M, N]`: every
/// byte becomes [`FILLER`], and then in each round the cursor is advanced
/// and a newline is put where it stands. Returns the length of the buffer or
/// [`RANGE_CAP`] if the buffer is longer.
///
/// The interval must not be empty nor be `[0, 0]`, its ends and its width
/// must be numbers that a `usize` can count, and the buffer must reach
/// beyond the last stand of the cursor. By [`lemma_cursor_bound`] a
/// buffer longer than [`RANGE_CAP`] always does.
pub fn prep_vec_range<const M: usize, const N: usize>(vec: &mut Vec<u8>) -> (active: usize)
    requires
        M <= N,
        0 < M + N <= usize::MAX,
        N - M < usize::MAX,
        cursor(M as int, N as int, rounds(old(vec)@.len() as int, M as int, N as int)) < old(
            vec,
        )@.len(),
    ensures
        active == capped(old(vec)@.len() as int, RANGE_CAP as int),
        final(vec)@.len() == old(vec)@.len(),
        forall|at: int|
            0 <= at < final(vec)@.len() ==> #[trigger] final(vec)@[at] == (if marked(
                M as int,
                N as int,
                rounds(old(vec)@.len() as int, M as int, N as int),
                at,
            ) {
                NEWLINE
            } else {
                FILLER
            }),
{
    fill(vec, FILLER);
    let active = if vec.len() < RANGE_CAP {
        vec.len()
    } else {
        RANGE_CAP
    };
    let rounds = active * 2 / (N + M);
    let mut idx: usize = 0;
    let mut i: usize = 0;
    while i < rounds
        invariant
            M <= N,
            0 < M + N <= usize::MAX,
            N - M < usize::MAX,
            i <= rounds,
            vec@.len() == old(vec)@.len(),
            rounds == self::rounds(old(vec)@.len() as int, M as int, N as int),
            cursor(M as int, N as int, rounds as int) < vec@.len(),
            idx == cursor(M as int, N as int, i as int),
            forall|at: int|
                0 <= at < vec@.len() ==> #[trigger] vec@[at] == (if marked(
                    M as int,
                    N as int,
                    i as int,
                    at,
                ) {
                    NEWLINE
                } else {
                    FILLER
                }),
        decreases rounds - i,
    {
        proof {
            lemma_cursor_grows(M as int, N as int, i + 1, rounds as int);
            lemma_cursor_grows(M as int, N as int, i as int, i + 1);
            vstd::arithmetic::div_mod::lemma_mod_bound(i as int, N - M + 1);
            assert(cursor(M as int, N as int, i + 1) == idx + advance(M as int, N as int, i as int));
            assert(vec@.len() == vec.len());
        }
        idx += M + i % (N - M + 1);
        vec[idx] = NEWLINE;
        i += 1;
    }
    active
}

} // verus!
