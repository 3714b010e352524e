use othello_core::popcount::popcount;
use othello_core::stability::{
    calculate_parity_regions, calculate_stability_proxy, determine_controller, flood_region,
    stable_count,
};

#[test]
fn stability_full_edge() {
    // Black holds all of rank 1: from each of its two corners the run along
    // the rank counts 7 discs; the runs up the files count 0.
    let b = 0xFFu64;
    assert_eq!(stable_count(b, 0), 14);
    assert_eq!(calculate_stability_proxy(b, 0), 14);
    assert_eq!(calculate_stability_proxy(0, b), -14);
}

#[test]
fn stability_lone_corner() {
    // A corner with no run along either edge contributes nothing in the
    // corner-edge-run approximation.
    assert_eq!(calculate_stability_proxy(1, 0), 0);
}

#[test]
fn stability_no_corner() {
    // Discs that touch no corner are never counted.
    let b = 0x0000001818000000u64;
    assert_eq!(calculate_stability_proxy(b, 0), 0);
}

#[test]
fn stability_antisymmetric() {
    let boards = [
        (0xFFu64, 0xFF00000000000000u64),
        (0x8100000000000081u64, 0x0000001818000000u64),
        (1u64, 0u64),
    ];
    for &(b, w) in boards.iter() {
        assert_eq!(calculate_stability_proxy(b, w), -calculate_stability_proxy(w, b));
    }
}

#[test]
fn stability_both_colors() {
    // Black: a1 corner with a 3-disc run east. White: h8 corner with a
    // 2-disc run west.
    let b = 0b1111u64;
    let w = (1u64 << 63) | (1u64 << 62) | (1u64 << 61);
    assert_eq!(calculate_stability_proxy(b, w), 3 - 2);
}

#[test]
fn parity_regions_single_pocket() {
    // One empty pocket a1..d1 of size 4; every adjacent disc is black.
    let empty = 0b1111u64;
    let b = !empty;
    let regions = calculate_parity_regions(b, 0);
    assert_eq!(regions, vec![(empty, 0)]);
}

#[test]
fn parity_regions_small_pocket_dropped() {
    // A pocket of 2 empty squares is below the size-3 floor.
    let empty = 0b11u64;
    let b = !empty;
    let regions = calculate_parity_regions(b, 0);
    assert_eq!(regions, vec![]);
}

#[test]
fn parity_regions_two_pockets_in_scan_order() {
    // Two pockets: a1..d1 and e8..h8, discovered in that order; all
    // adjacent discs are black.
    let low = 0b1111u64;
    let high = 0xF000000000000000u64;
    let b = !(low | high);
    let regions = calculate_parity_regions(b, 0);
    assert_eq!(regions, vec![(low, 0), (high, 0)]);
}

#[test]
fn parity_regions_contested() {
    // Pocket a1..d1; its adjacent squares are e1 and a2..e2. Three of the
    // six hold white, three hold black: a contested region.
    let empty = 0b1111u64;
    let w = (1u64 << 4) | (1u64 << 11) | (1u64 << 12);
    let b = !(empty | w);
    let regions = calculate_parity_regions(b, w);
    assert_eq!(regions, vec![(empty, 2)]);
}

#[test]
fn parity_regions_white_controlled() {
    // Pocket a1..d1 with every adjacent disc white.
    let empty = 0b1111u64;
    let adjacent = (1u64 << 4) | (1u64 << 8) | (1u64 << 9) | (1u64 << 10) | (1u64 << 11)
        | (1u64 << 12);
    let w = adjacent;
    let b = !(empty | adjacent);
    let regions = calculate_parity_regions(b, w);
    assert_eq!(regions, vec![(empty, 1)]);
}

#[test]
fn parity_regions_properties_hold() {
    // Union of regions lies inside the empty mask, regions are pairwise
    // disjoint, and each holds at least 3 squares.
    let b = 0x00FF00FF00FF00FFu64;
    let w = 0x0F000F000F000F00u64 & !b;
    let empty = !(b | w);
    let regions = calculate_parity_regions(b, w);
    let mut seen = 0u64;
    for &(mask, controller) in regions.iter() {
        assert_eq!(mask & !empty, 0);
        assert_eq!(mask & seen, 0);
        assert!(popcount(mask) >= 3);
        assert!(controller <= 2);
        seen |= mask;
    }
}

#[test]
fn parity_regions_empty_and_full_boards() {
    // An empty board is one 64-square region nobody's discs touch.
    assert_eq!(calculate_parity_regions(0, 0), vec![(u64::MAX, 2)]);
    // A full board has no empty region at all.
    assert_eq!(calculate_parity_regions(u64::MAX, 0), vec![]);
    assert_eq!(
        calculate_parity_regions(0xAAAAAAAAAAAAAAAA, 0x5555555555555555),
        vec![]
    );
}

#[test]
fn flood_region_marks_visited() {
    let empty = 0b1111u64;
    let mut visited = 0u64;
    let (region, size) = flood_region(empty, 0, &mut visited);
    assert_eq!(region, empty);
    assert_eq!(size, 4);
    assert_eq!(visited, empty);
    // A second flood from an already-visited square finds nothing.
    let (region2, size2) = flood_region(empty, 0, &mut visited);
    assert_eq!(region2, 0);
    assert_eq!(size2, 0);
}

#[test]
fn controller_counts_adjacent_discs() {
    // Region a1..d1: black on e1 and a2, white on b2 alone.
    let region = 0b1111u64;
    let b = (1u64 << 4) | (1u64 << 8);
    let w = 1u64 << 9;
    assert_eq!(determine_controller(region, b, w), 0);
    assert_eq!(determine_controller(region, w, b), 1);
    assert_eq!(determine_controller(region, b, b), 2);
}
