//! Positional heuristics over whole masks: a corner-edge-run stability
//! proxy, and the partition of the empty squares into connected regions
//! with a controller tag per region.
//!
//! The stability proxy uses the corner-edge-run approximation: from each
//! occupied corner it walks the two board edges, counting the contiguous
//! same-color runs. This is the cheaper alternative to a full flood-fill
//! stability computation and yields different (smaller) values.

use crate::bitboards::{
    adjacent_spec, lemma_and_comm, lemma_bit_in_mask, lemma_disjoint_from_union,
    lemma_grow_in_domain, lemma_subset_of_avail, lemma_zero_mask, sq_bit, step_ok, valid_dir,
};
use crate::bitboards::shift_dir;
use crate::popcount::{lemma_pc_zero, pc, popcount};
use vstd::prelude::*;

verus! {

/// Length of the contiguous run of discs of `mask` that starts one step
/// after `pos` in direction `dir` and follows it.
pub open spec fn edge_run_len(mask: u64, pos: int, dir: int) -> nat
    decreases (if dir > 0 {
        64 - pos
    } else {
        pos
    }),
{
    if step_ok(pos, dir) && mask & sq_bit(pos + dir) != 0 {
        1 + edge_run_len(mask, pos + dir, dir)
    } else {
        0
    }
}

/// What one occupied corner contributes: the runs along its two edges.
pub open spec fn corner_runs(mask: u64, corner: int, d1: int, d2: int) -> nat {
    if mask & sq_bit(corner) == 0 {
        0
    } else {
        edge_run_len(mask, corner, d1) + edge_run_len(mask, corner, d2)
    }
}

/// The stability count of one color: edge runs extending from each of the
/// four occupied corners (squares 0, 7, 56, 63).
pub open spec fn stable_spec(mask: u64) -> nat {
    corner_runs(mask, 0, 1, 8) + corner_runs(mask, 7, -1, 8) + corner_runs(mask, 56, 1, -8)
        + corner_runs(mask, 63, -1, -8)
}

/// The stability proxy score: black's stable count minus white's.
pub open spec fn stability_proxy_spec(b: u64, w: u64) -> int {
    stable_spec(b) - stable_spec(w)
}

/// Walk from `sq` in `dir` while discs of `mask` continue; the run length.
fn edge_run(mask: u64, sq: u8, dir: i8) -> (r: u32)
    requires
        sq < 64,
    ensures
        r == edge_run_len(mask, sq as int, dir as int),
        r <= 64,
{
    let valid = dir == 8 || dir == -8 || dir == 1 || dir == -1 || dir == 9 || dir == 7 || dir == -7
        || dir == -9;
    if !valid {
        return 0;
    }
    let d: i16 = dir as i16;
    let mut pos: i16 = sq as i16;
    let mut count: u32 = 0;
    loop
        invariant
            valid_dir(dir as int),
            d == dir as int,
            sq < 64,
            0 <= pos < 64,
            d > 0 ==> pos >= sq as int + count,
            d < 0 ==> pos <= sq as int - count,
            count <= 64,
            edge_run_len(mask, sq as int, dir as int) == count + edge_run_len(
                mask,
                pos as int,
                dir as int,
            ),
        decreases (if d > 0 {
            64 - pos as int
        } else {
            pos as int
        }),
    {
        let nxt = pos + d;
        if nxt < 0 || nxt >= 64 {
            return count;
        }
        let east = d == 1 || d == 9 || d == -7;
        let west = d == -1 || d == -9 || d == 7;
        if east && nxt % 8 == 0 {
            return count;
        }
        if west && nxt % 8 == 7 {
            return count;
        }
        let nb: u64 = 1u64 << (nxt as u64);
        proof {
            assert(step_ok(pos as int, dir as int));
            assert(nb == sq_bit(nxt as int));
        }
        if mask & nb == 0 {
            return count;
        }
        count = count + 1;
        pos = nxt;
    }
}

/// The two edge runs of one corner, counted when the corner is occupied.
fn corner_edge_runs(mask: u64, corner: u8, d1: i8, d2: i8) -> (r: u32)
    requires
        corner < 64,
    ensures
        r == corner_runs(mask, corner as int, d1 as int, d2 as int),
        r <= 128,
{
    let bit: u64 = 1u64 << (corner as u64);
    proof {
        assert(bit == sq_bit(corner as int));
    }
    if mask & bit == 0 {
        0
    } else {
        edge_run(mask, corner, d1) + edge_run(mask, corner, d2)
    }
}

/// The stability count of one color: same-color edge runs extending from
/// its occupied corners. The second mask plays no part in this
/// approximation; the parameter stands so both colors are scored alike.
pub fn stable_count(mask_color: u64, _mask_other: u64) -> (r: u32)
    ensures
        r == stable_spec(mask_color),
        r <= 512,
{
    corner_edge_runs(mask_color, 0, 1, 8) + corner_edge_runs(mask_color, 7, -1, 8)
        + corner_edge_runs(mask_color, 56, 1, -8) + corner_edge_runs(mask_color, 63, -1, -8)
}

/// Stability proxy: black's corner-edge-run count minus white's.
pub fn calculate_stability_proxy(b: u64, w: u64) -> (r: i16)
    ensures
        r as int == stability_proxy_spec(b, w),
{
    let black_stable = stable_count(b, w);
    let white_stable = stable_count(w, b);
    (black_stable as i16) - (white_stable as i16)
}

/// The stability proxy is antisymmetric: swapping the two colors' masks
/// negates the score.
pub proof fn lemma_stability_antisymmetric(b: u64, w: u64)
    ensures
        stability_proxy_spec(b, w) == -stability_proxy_spec(w, b),
{
}

/// One growth step of a region inside `domain`: add every square of
/// `domain` adjacent to the region.
pub open spec fn grow_region(domain: u64, x: u64) -> u64 {
    x | (adjacent_spec(x) & domain)
}

/// `n` growth steps from `x` inside `domain`.
pub open spec fn grow_iter(domain: u64, x: u64, n: nat) -> u64
    decreases n,
{
    if n == 0 {
        x
    } else {
        grow_region(domain, grow_iter(domain, x, (n - 1) as nat))
    }
}

/// The connected component of `domain` holding square `sq`: 64 growth
/// steps from the seed reach every square a chain of adjacent `domain`
/// squares can, since each useful step adds a square and 64 exist.
pub open spec fn component_of(domain: u64, sq: int) -> u64 {
    if 0 <= sq < 64 && domain & sq_bit(sq) != 0 {
        grow_iter(domain, sq_bit(sq), 64)
    } else {
        0
    }
}

proof fn lemma_grow_iter_in_domain(domain: u64, x: u64, n: nat)
    requires
        x & domain == x,
    ensures
        grow_iter(domain, x, n) & domain == grow_iter(domain, x, n),
    decreases n,
{
    if n > 0 {
        let prev = grow_iter(domain, x, (n - 1) as nat);
        lemma_grow_iter_in_domain(domain, x, (n - 1) as nat);
        lemma_grow_in_domain(prev, adjacent_spec(prev), domain);
    }
}

/// A component is a submask of its domain.
pub proof fn lemma_component_in_domain(domain: u64, sq: int)
    ensures
        component_of(domain, sq) & domain == component_of(domain, sq),
{
    if 0 <= sq < 64 && domain & sq_bit(sq) != 0 {
        lemma_bit_in_mask(domain, sq as u64);
        lemma_grow_iter_in_domain(domain, sq_bit(sq), 64);
    } else {
        lemma_zero_mask(domain);
    }
}

/// Flood fill: the connected empty region around `start_sq`, confined to
/// the empty squares not yet visited. Returns the region mask and its
/// size, and marks the region visited.
pub fn flood_region(empty: u64, start_sq: u8, visited: &mut u64) -> (r: (u64, u8))
    requires
        start_sq < 64,
    ensures
        r.0 == component_of(empty & !(*old(visited)), start_sq as int),
        r.1 == pc(r.0),
        *final(visited) == *old(visited) | r.0,
{
    let avail = empty & !*visited;
    let sbit: u64 = 1u64 << (start_sq as u64);
    proof {
        assert(sbit == sq_bit(start_sq as int));
    }
    if avail & sbit == 0 {
        proof {
            lemma_pc_zero();
            lemma_zero_mask(*visited);
        }
        return (0, 0);
    }
    let mut region: u64 = sbit;
    let mut i: u8 = 0;
    while i < 64
        invariant
            i <= 64,
            region == grow_iter(empty & !(*old(visited)), sbit, i as nat),
            avail == empty & !(*old(visited)),
            *visited == *old(visited),
            avail & sbit != 0,
            sbit == sq_bit(start_sq as int),
        decreases 64 - i,
    {
        let adjacent = shift_dir(region, 8) | shift_dir(region, -8) | shift_dir(region, 1)
            | shift_dir(region, -1) | shift_dir(region, 9) | shift_dir(region, 7) | shift_dir(
            region,
            -7,
        ) | shift_dir(region, -9);
        region = region | (adjacent & avail);
        i = i + 1;
    }
    let size = popcount(region);
    *visited = *visited | region;
    (region, size as u8)
}

/// Which side controls a region: 0 when black has strictly more discs
/// adjacent to it, 1 when white has, 2 on a tie.
pub open spec fn controller_spec(region: u64, b: u64, w: u64) -> u8 {
    let black_adjacent = pc(b & adjacent_spec(region));
    let white_adjacent = pc(w & adjacent_spec(region));
    if black_adjacent > white_adjacent {
        0
    } else if white_adjacent > black_adjacent {
        1
    } else {
        2
    }
}

/// Count each side's discs adjacent to the region and compare.
pub fn determine_controller(region: u64, b: u64, w: u64) -> (r: u8)
    ensures
        r == controller_spec(region, b, w),
{
    let adjacent = shift_dir(region, 8) | shift_dir(region, -8) | shift_dir(region, 1) | shift_dir(
        region,
        -1,
    ) | shift_dir(region, 9) | shift_dir(region, 7) | shift_dir(region, -7) | shift_dir(
        region,
        -9,
    );
    let black_count = popcount(b & adjacent);
    let white_count = popcount(w & adjacent);
    if black_count > white_count {
        0
    } else if white_count > black_count {
        1
    } else {
        2
    }
}

/// The regions discovered scanning squares `sq .. 64` with `visited`
/// already claimed: at each unvisited empty square, its connected
/// component is carved out of the remaining empties, and kept with its
/// controller tag when it spans at least 3 squares.
pub open spec fn regions_from(b: u64, w: u64, visited: u64, sq: int) -> Seq<(u64, u8)>
    decreases 64 - sq,
{
    if sq < 0 || sq >= 64 {
        Seq::empty()
    } else {
        let avail = !(b | w) & !visited;
        if avail & sq_bit(sq) != 0 {
            let region = component_of(avail, sq);
            let rest = regions_from(b, w, visited | region, sq + 1);
            if pc(region) >= 3 {
                seq![(region, controller_spec(region, b, w))] + rest
            } else {
                rest
            }
        } else {
            regions_from(b, w, visited, sq + 1)
        }
    }
}

/// The parity-region list of a board: regions in order of their
/// first-discovered square.
pub open spec fn regions_spec(b: u64, w: u64) -> Seq<(u64, u8)> {
    regions_from(b, w, 0, 0)
}

proof fn lemma_regions_from_props(b: u64, w: u64, visited: u64, sq: int)
    ensures
        ({
            let s = regions_from(b, w, visited, sq);
            &&& forall|i: int|
                0 <= i < s.len() ==> ((#[trigger] s[i]).0 & (b | w) == 0 && s[i].0 & visited == 0
                    && pc(s[i].0) >= 3 && s[i].1 == controller_spec(s[i].0, b, w))
            &&& forall|i: int, j: int|
                0 <= i < j < s.len() ==> (#[trigger] s[i]).0 & (#[trigger] s[j]).0 == 0
        }),
    decreases 64 - sq,
{
    if 0 <= sq < 64 {
        let avail = !(b | w) & !visited;
        if avail & sq_bit(sq) != 0 {
            let region = component_of(avail, sq);
            lemma_component_in_domain(avail, sq);
            lemma_subset_of_avail(region, b | w, visited);
            lemma_regions_from_props(b, w, visited | region, sq + 1);
            let rest = regions_from(b, w, visited | region, sq + 1);
            assert forall|i: int|
                0 <= i < rest.len() implies (#[trigger] rest[i]).0 & visited == 0 && rest[i].0
                & region == 0 && region & rest[i].0 == 0 by {
                lemma_disjoint_from_union(rest[i].0, visited, region);
                lemma_and_comm(rest[i].0, region);
            }
            if pc(region) >= 3 {
                let head = (region, controller_spec(region, b, w));
                let s = seq![head] + rest;
                assert(regions_from(b, w, visited, sq) == s);
                assert forall|i: int|
                    0 <= i < s.len() implies ((#[trigger] s[i]).0 & (b | w) == 0 && s[i].0 & visited
                    == 0 && pc(s[i].0) >= 3 && s[i].1 == controller_spec(s[i].0, b, w)) by {
                    if i == 0 {
                        assert(s[0] == head);
                    } else {
                        assert(s[i] == rest[i - 1]);
                    }
                }
                assert forall|i: int, j: int|
                    0 <= i < j < s.len() implies (#[trigger] s[i]).0 & (#[trigger] s[j]).0 == 0 by {
                    assert(s[j] == rest[j - 1]);
                    if i == 0 {
                        assert(s[0] == head);
                    } else {
                        assert(s[i] == rest[i - 1]);
                    }
                }
            } else {
                assert(regions_from(b, w, visited, sq) == rest);
            }
        } else {
            lemma_regions_from_props(b, w, visited, sq + 1);
            assert(regions_from(b, w, visited, sq) == regions_from(b, w, visited, sq + 1));
        }
    }
}

/// The parity-region laws: every region of `regions_spec` lies inside the
/// empty-square mask, spans at least 3 squares, carries the controller tag
/// its adjacent-disc counts dictate, and the regions are pairwise disjoint.
pub proof fn lemma_parity_regions_properties(b: u64, w: u64)
    ensures
        ({
            let s = regions_spec(b, w);
            &&& forall|i: int|
                0 <= i < s.len() ==> ((#[trigger] s[i]).0 & (b | w) == 0 && pc(s[i].0) >= 3
                    && s[i].1 == controller_spec(s[i].0, b, w))
            &&& forall|i: int, j: int|
                0 <= i < j < s.len() ==> (#[trigger] s[i]).0 & (#[trigger] s[j]).0 == 0
        }),
{
    lemma_regions_from_props(b, w, 0, 0);
}

/// Parity regions: the connected regions of at least 3 empty squares, each
/// with its controller tag, ordered by first-discovered square.
pub fn calculate_parity_regions(b: u64, w: u64) -> (r: Vec<(u64, u8)>)
    ensures
        r@ == regions_spec(b, w),
{
    let empty = !(b | w);
    let mut visited: u64 = 0;
    let mut regions: Vec<(u64, u8)> = Vec::new();
    let mut sq: u8 = 0;
    while sq < 64
        invariant
            sq <= 64,
            empty == !(b | w),
            regions@ + regions_from(b, w, visited, sq as int) == regions_spec(b, w),
        decreases 64 - sq,
    {
        let bit: u64 = 1u64 << (sq as u64);
        let avail = empty & !visited;
        proof {
            assert(bit == sq_bit(sq as int));
        }
        if avail & bit != 0 {
            let ghost old_regions = regions@;
            let ghost old_visited = visited;
            let (region_mask, size) = flood_region(empty, sq, &mut visited);
            let ghost rest = regions_from(b, w, old_visited | region_mask, sq as int + 1);
            if size >= 3 {
                let controller = determine_controller(region_mask, b, w);
                regions.push((region_mask, controller));
                proof {
                    let entry = (region_mask, controller_spec(region_mask, b, w));
                    assert(regions@ =~= old_regions + seq![entry]);
                    assert(old_regions + (seq![entry] + rest) =~= (old_regions + seq![entry])
                        + rest);
                }
            } else {
                proof {
                    assert(regions_from(b, w, old_visited, sq as int) == rest);
                }
            }
        }
        sq = sq + 1;
    }
    regions
}

} // verus!
