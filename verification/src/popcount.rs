//! Population count: a bit-counting spec and a verified counting loop,
//! with the lemmas about disjoint unions that the rest of the crate needs.

use crate::bitboards::{lemma_bit_or_char, lemma_bit_single};
use vstd::prelude::*;

verus! {

/// Number of set bits of `m` among bit positions `0 .. n`.
pub open spec fn pc_upto(m: u64, n: nat) -> nat
    decreases n,
{
    if n == 0 {
        0
    } else {
        let k = (n - 1) as nat;
        pc_upto(m, k) + if m & (1u64 << (k as u64)) != 0 {
            1nat
        } else {
            0nat
        }
    }
}

/// Number of set bits of `m`.
pub open spec fn pc(m: u64) -> nat {
    pc_upto(m, 64)
}

pub proof fn lemma_pc_upto_bound(m: u64, n: nat)
    ensures
        pc_upto(m, n) <= n,
    decreases n,
{
    if n > 0 {
        lemma_pc_upto_bound(m, (n - 1) as nat);
    }
}

/// A 64-bit mask holds at most 64 set bits.
pub proof fn lemma_pc_bound(m: u64)
    ensures
        pc(m) <= 64,
{
    lemma_pc_upto_bound(m, 64);
}

pub proof fn lemma_pc_upto_or_disjoint(x: u64, y: u64, n: nat)
    requires
        x & y == 0,
        n <= 64,
    ensures
        pc_upto(x | y, n) == pc_upto(x, n) + pc_upto(y, n),
    decreases n,
{
    if n > 0 {
        let k = (n - 1) as nat;
        lemma_pc_upto_or_disjoint(x, y, k);
        lemma_bit_or_char(x, y, k as u64);
    }
}

/// Counting distributes over a disjoint union of masks.
pub proof fn lemma_pc_or_disjoint(x: u64, y: u64)
    requires
        x & y == 0,
    ensures
        pc(x | y) == pc(x) + pc(y),
{
    lemma_pc_upto_or_disjoint(x, y, 64);
}

proof fn lemma_pc_upto_single(s: u64, n: nat)
    requires
        s < 64,
        n <= 64,
    ensures
        pc_upto(1u64 << s, n) == if s < n {
            1nat
        } else {
            0nat
        },
    decreases n,
{
    if n > 0 {
        let k = (n - 1) as nat;
        lemma_pc_upto_single(s, k);
        lemma_bit_single(s, k as u64);
    }
}

/// A mask with one bit set counts as 1.
pub proof fn lemma_pc_single(s: u64)
    requires
        s < 64,
    ensures
        pc(1u64 << s) == 1,
{
    lemma_pc_upto_single(s, 64);
}

/// Setting an unset bit raises the count by exactly one.
pub proof fn lemma_pc_set_bit(m: u64, s: u64)
    requires
        m & (1u64 << s) == 0,
        s < 64,
    ensures
        pc(m | (1u64 << s)) == pc(m) + 1,
{
    lemma_pc_or_disjoint(m, 1u64 << s);
    lemma_pc_single(s);
}

proof fn lemma_pc_upto_zero(n: nat)
    requires
        n <= 64,
    ensures
        pc_upto(0u64, n) == 0,
    decreases n,
{
    if n > 0 {
        let k = (n - 1) as nat;
        lemma_pc_upto_zero(k);
        assert(0u64 & (1u64 << (k as u64)) == 0) by (bit_vector);
    }
}

/// The empty mask counts no bits.
pub proof fn lemma_pc_zero()
    ensures
        pc(0u64) == 0,
{
    lemma_pc_upto_zero(64);
}

/// Population count: the number of set bits of `x`.
pub fn popcount(x: u64) -> (r: u32)
    ensures
        r == pc(x),
        r <= 64,
{
    let mut count: u32 = 0;
    let mut i: u8 = 0;
    while i < 64
        invariant
            i <= 64,
            count == pc_upto(x, i as nat),
            count <= i,
        decreases 64 - i,
    {
        if x & (1u64 << (i as u64)) != 0 {
            count = count + 1;
        }
        i = i + 1;
    }
    count
}

/// Number of set bits of `m` on rank `rank`, via a fixed 8-bit mask.
pub fn rank_popcount(m: u64, rank: u8) -> (r: u32)
    requires
        rank < 8,
    ensures
        r == pc(m & (0xFFu64 << ((8 * rank) as u64))),
{
    popcount(m & (0xFFu64 << ((8 * rank) as u64)))
}

/// Number of set bits of `m` on file `file`, via a fixed 8-step mask.
pub fn file_popcount(m: u64, file: u8) -> (r: u32)
    requires
        file < 8,
    ensures
        r == pc(m & (0x0101010101010101u64 << (file as u64))),
{
    popcount(m & (0x0101010101010101u64 << (file as u64)))
}

} // verus!
