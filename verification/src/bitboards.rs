//! Bitboard constants and primitives: single-square masks, directional
//! shifts with wrap masking at the file-A/file-H boundary, and the bit-level
//! lemmas shared by the move generator and the evaluators.

use vstd::prelude::*;

verus! {

/// Every square except file A.
pub const NOT_A: u64 = 0xFEFEFEFEFEFEFEFE;

/// Every square except file H.
pub const NOT_H: u64 = 0x7F7F7F7F7F7F7F7F;

/// File A: squares whose index is 0 mod 8.
pub const FILE_A: u64 = 0x0101010101010101;

/// File H: squares whose index is 7 mod 8.
pub const FILE_H: u64 = 0x8080808080808080;

/// The mask with only square `sq` set (meaningful for `0 <= sq < 64`).
pub open spec fn sq_bit(sq: int) -> u64 {
    1u64 << (sq as u64)
}

/// A square-index delta is one of the 8 ray directions:
/// N, S, E, W, NE, NW, SE, SW.
pub open spec fn valid_dir(dir: int) -> bool {
    dir == 8 || dir == -8 || dir == 1 || dir == -1 || dir == 9 || dir == 7 || dir == -7 || dir == -9
}

/// Directions whose step moves one file eastward (wraps at file H).
pub open spec fn east_dir(dir: int) -> bool {
    dir == 1 || dir == 9 || dir == -7
}

/// Directions whose step moves one file westward (wraps at file A).
pub open spec fn west_dir(dir: int) -> bool {
    dir == -1 || dir == -9 || dir == 7
}

/// One step from `pos` in direction `dir` stays on the board: it neither
/// leaves the 0..64 range nor crosses the file-A/file-H boundary.
pub open spec fn step_ok(pos: int, dir: int) -> bool {
    let nxt = pos + dir;
    &&& valid_dir(dir)
    &&& 0 <= nxt < 64
    &&& !(east_dir(dir) && nxt % 8 == 0)
    &&& !(west_dir(dir) && nxt % 8 == 7)
}

/// The value of `shift_dir`: every set bit moved one step in `dir`, with
/// bits that would wrap across a file boundary masked away first.
pub open spec fn shift_spec(board: u64, dir: int) -> u64 {
    if dir == 8 {
        board << 8
    } else if dir == -8 {
        board >> 8
    } else if dir == 1 {
        (board & NOT_H) << 1
    } else if dir == -1 {
        (board & NOT_A) >> 1
    } else if dir == 9 {
        (board & NOT_H) << 9
    } else if dir == 7 {
        (board & NOT_A) << 7
    } else if dir == -7 {
        (board & NOT_H) >> 7
    } else if dir == -9 {
        (board & NOT_A) >> 9
    } else {
        0
    }
}

/// All squares one step away from a set bit of `m`, in any of the 8
/// directions.
pub open spec fn adjacent_spec(m: u64) -> u64 {
    shift_spec(m, 8) | shift_spec(m, -8) | shift_spec(m, 1) | shift_spec(m, -1) | shift_spec(m, 9)
        | shift_spec(m, 7) | shift_spec(m, -7) | shift_spec(m, -9)
}

proof fn lemma_shift_no_wrap(board: u64)
    by (bit_vector)
    ensures
        ((board & 0x7F7F7F7F7F7F7F7Fu64) << 1) & 0x0101010101010101u64 == 0,
        ((board & 0x7F7F7F7F7F7F7F7Fu64) << 9) & 0x0101010101010101u64 == 0,
        ((board & 0x7F7F7F7F7F7F7F7Fu64) >> 7) & 0x0101010101010101u64 == 0,
        ((board & 0xFEFEFEFEFEFEFEFEu64) >> 1) & 0x8080808080808080u64 == 0,
        ((board & 0xFEFEFEFEFEFEFEFEu64) >> 9) & 0x8080808080808080u64 == 0,
        ((board & 0xFEFEFEFEFEFEFEFEu64) << 7) & 0x8080808080808080u64 == 0,
{
}

/// Shift every set bit of `board` one step in direction `dir`.
///
/// Eastward shifts never produce a bit on file A and westward shifts never
/// produce a bit on file H: a shift cannot wrap across the board edge.
pub fn shift_dir(board: u64, dir: i8) -> (r: u64)
    ensures
        r == shift_spec(board, dir as int),
        east_dir(dir as int) ==> r & FILE_A == 0,
        west_dir(dir as int) ==> r & FILE_H == 0,
{
    proof {
        lemma_shift_no_wrap(board);
    }
    match dir {
        8 => board << 8u64,
        -8 => board >> 8u64,
        1 => (board & NOT_H) << 1u64,
        -1 => (board & NOT_A) >> 1u64,
        9 => (board & NOT_H) << 9u64,
        7 => (board & NOT_A) << 7u64,
        -7 => (board & NOT_H) >> 7u64,
        -9 => (board & NOT_A) >> 9u64,
        _ => 0,
    }
}

/// Whether bit `sq` of `m` is set.
pub fn test_bit(m: u64, sq: u8) -> (r: bool)
    requires
        sq < 64,
    ensures
        r == (m & sq_bit(sq as int) != 0),
{
    m & (1u64 << (sq as u64)) != 0
}

/// `m` with bit `sq` set.
pub fn set_bit(m: u64, sq: u8) -> (r: u64)
    requires
        sq < 64,
    ensures
        r == (m | sq_bit(sq as int)),
{
    m | (1u64 << (sq as u64))
}

/// `m` with bit `sq` cleared.
pub fn clear_bit(m: u64, sq: u8) -> (r: u64)
    requires
        sq < 64,
    ensures
        r == (m & !sq_bit(sq as int)),
{
    m & !(1u64 << (sq as u64))
}

/// The index of the lowest set bit of `m`, or the sentinel 64 when `m` has
/// none.
pub fn lowest_set_bit(m: u64) -> (r: u32)
    ensures
        m == 0 ==> r == 64,
        m != 0 ==> r < 64 && m & sq_bit(r as int) != 0,
        forall|j: int| 0 <= j < r && j < 64 ==> m & sq_bit(j) == 0,
{
    let mut i: u32 = 0;
    while i < 64
        invariant
            i <= 64,
            forall|j: int| 0 <= j < i ==> m & sq_bit(j) == 0,
            i == 64 ==> m == 0,
        decreases 64 - i,
    {
        proof {
            assert(1u64 << (i as u64) == sq_bit(i as int));
            lemma_zero_mask(1u64 << (i as u64));
        }
        if m & (1u64 << (i as u64)) != 0 {
            return i;
        }
        proof {
            if i == 63 {
                lemma_all_bits_clear(m);
            }
        }
        i = i + 1;
    }
    64
}

proof fn lemma_all_bits_clear(m: u64)
    requires
        forall|j: int| 0 <= j < 64 ==> m & sq_bit(j) == 0,
    ensures
        m == 0,
{
    if m != 0 {
        lemma_nonzero_has_bit(m);
    }
}

/// Bitwise-or facts the solver of the default mode does not supply.
pub proof fn lemma_or_comm(x: u64, y: u64)
    by (bit_vector)
    ensures
        x | y == y | x,
{
}

pub proof fn lemma_and_comm(x: u64, y: u64)
    by (bit_vector)
    ensures
        x & y == y & x,
{
}

pub proof fn lemma_or_assoc(x: u64, y: u64, z: u64)
    by (bit_vector)
    ensures
        (x | y) | z == x | (y | z),
{
}

pub proof fn lemma_zero_mask(x: u64)
    by (bit_vector)
    ensures
        0u64 & x == 0,
        x & 0u64 == 0,
        0u64 | x == x,
        x | 0u64 == x,
{
}

/// A bit is set in the complement of `x` exactly when it is clear in `x`.
pub proof fn lemma_not_bit(x: u64, k: u64)
    by (bit_vector)
    requires
        k < 64,
    ensures
        (!x & (1u64 << k) != 0) == (x & (1u64 << k) == 0),
        (x & (1u64 << k)) == ((1u64 << k) & x),
{
}

/// Joining two masks that each avoid `m` yields a mask that avoids `m`.
pub proof fn lemma_or_preserves_disjoint(x: u64, y: u64, m: u64)
    by (bit_vector)
    requires
        x & m == 0,
        y & m == 0,
    ensures
        (x | y) & m == 0,
{
}

/// Which bits a union holds, bit by bit; a disjoint union holds each set
/// bit in exactly one of its parts.
pub proof fn lemma_bit_or_char(x: u64, y: u64, k: u64)
    by (bit_vector)
    requires
        k < 64,
    ensures
        ((x | y) & (1u64 << k) != 0) == (x & (1u64 << k) != 0 || y & (1u64 << k) != 0),
        x & y == 0 ==> !(x & (1u64 << k) != 0 && y & (1u64 << k) != 0),
{
}

/// Two single-bit masks meet exactly when their indices agree.
pub proof fn lemma_bit_single(s: u64, k: u64)
    by (bit_vector)
    requires
        s < 64,
        k < 64,
    ensures
        ((1u64 << s) & (1u64 << k) != 0) == (s == k),
{
}

/// A union holding a single-bit mask is nonzero.
pub proof fn lemma_bit_or_nonzero(rest: u64, k: u64)
    by (bit_vector)
    requires
        k < 64,
    ensures
        ((1u64 << k) | rest) != 0,
{
}

/// An 8-way union is zero exactly when every part is.
pub proof fn lemma_or8_zero(a: u64, b: u64, c: u64, d: u64, e: u64, f: u64, g: u64, h: u64)
    by (bit_vector)
    ensures
        (a | b | c | d | e | f | g | h == 0) == (a == 0 && b == 0 && c == 0 && d == 0 && e == 0
            && f == 0 && g == 0 && h == 0),
{
}

/// The union of two submasks of `m` is a submask of `m`.
pub proof fn lemma_or_subset(x: u64, y: u64, m: u64)
    by (bit_vector)
    requires
        x & m == x,
        y & m == y,
    ensures
        (x | y) & m == (x | y),
{
}

/// A set bit of `m`, taken alone, is a submask of `m`.
pub proof fn lemma_bit_in_mask(m: u64, k: u64)
    by (bit_vector)
    requires
        k < 64,
        m & (1u64 << k) != 0,
    ensures
        (1u64 << k) & m == (1u64 << k),
{
}

/// Growing a submask of `d` by squares drawn from `d` stays inside `d`.
pub proof fn lemma_grow_in_domain(x: u64, a: u64, d: u64)
    by (bit_vector)
    requires
        x & d == x,
    ensures
        (x | (a & d)) & d == (x | (a & d)),
{
}

/// A submask of `!o & !v` meets neither `o` nor `v`.
pub proof fn lemma_subset_of_avail(x: u64, o: u64, v: u64)
    by (bit_vector)
    requires
        x & (!o & !v) == x,
    ensures
        x & o == 0,
        x & v == 0,
{
}

/// A mask disjoint from a union is disjoint from both parts.
pub proof fn lemma_disjoint_from_union(x: u64, v: u64, r: u64)
    by (bit_vector)
    requires
        x & (v | r) == 0,
    ensures
        x & v == 0,
        x & r == 0,
{
}

/// The mask of the low `n` bit positions.
pub open spec fn low_mask(n: u64) -> u64 {
    if n >= 64 {
        0xFFFFFFFFFFFFFFFFu64
    } else {
        ((1u64 << n) - 1) as u64
    }
}

proof fn lemma_low_mask_step(m: u64, n: u64)
    by (bit_vector)
    requires
        0 < n <= 64,
    ensures
        m & (if n >= 64 {
            0xFFFFFFFFFFFFFFFFu64
        } else {
            ((1u64 << n) - 1) as u64
        }) != 0 ==> (m & (1u64 << ((n - 1) as u64)) != 0 || m & (((1u64 << ((n - 1) as u64)) - 1)
            as u64) != 0),
{
}

proof fn lemma_nonzero_has_bit_upto(m: u64, n: u64)
    requires
        n <= 64,
        m & low_mask(n) != 0,
    ensures
        exists|s: int| 0 <= s < n && m & sq_bit(s) != 0,
    decreases n,
{
    if n == 0 {
        assert(m & low_mask(0) == 0) by (bit_vector);
    } else {
        lemma_low_mask_step(m, n);
        let k = (n - 1) as u64;
        if m & (1u64 << k) != 0 {
            assert(m & sq_bit(k as int) != 0);
        } else {
            assert(m & low_mask(k) != 0);
            lemma_nonzero_has_bit_upto(m, k);
        }
    }
}

/// A nonzero mask has a set bit at some square index.
pub proof fn lemma_nonzero_has_bit(m: u64)
    requires
        m != 0,
    ensures
        exists|s: int| 0 <= s < 64 && m & sq_bit(s) != 0,
{
    assert(m & low_mask(64) == m) by (bit_vector);
    lemma_nonzero_has_bit_upto(m, 64);
}

} // verus!
