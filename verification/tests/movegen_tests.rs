use othello_core::bitboards::shift_dir;
use othello_core::movegen::{
    calculate_potential_mobility, generate_flip_mask, generate_legal_mask,
    has_captures_in_direction,
};
use othello_core::popcount::popcount;

const FILE_A: u64 = 0x0101010101010101;
const FILE_H: u64 = 0x8080808080808080;

fn start_black() -> u64 {
    (1u64 << 28) | (1u64 << 35)
}

fn start_white() -> u64 {
    (1u64 << 27) | (1u64 << 36)
}

#[test]
fn legal_mask_start_position() {
    // Black to move from the standard start: exactly the 4 opening squares.
    let expected = (1u64 << 19) | (1u64 << 26) | (1u64 << 37) | (1u64 << 44);
    assert_eq!(generate_legal_mask(start_black(), start_white(), 0), expected);
}

#[test]
fn legal_mask_start_position_white() {
    // White to move from the start: the mirrored 4 opening squares.
    let expected = (1u64 << 20) | (1u64 << 29) | (1u64 << 34) | (1u64 << 43);
    assert_eq!(generate_legal_mask(start_black(), start_white(), 1), expected);
}

#[test]
fn legal_mask_never_occupied() {
    let boards = [
        (start_black(), start_white()),
        (0xFFu64, 0xFF00u64),
        (0x0000000810000000u64, 0x0000001008000000u64),
        (0x123456789ABCDEF0u64 & !0x0F0F0F0F0F0F0F0Fu64, 0x0F0F0F0F0F0F0F0Fu64 & !0x123456789ABCDEF0u64),
        (u64::MAX ^ (1 << 5), 0),
    ];
    for &(b, w) in boards.iter() {
        assert_eq!(b & w, 0, "test boards must be disjoint");
        for stm in 0..2u8 {
            let legal = generate_legal_mask(b, w, stm);
            assert_eq!(legal & (b | w), 0);
        }
    }
}

#[test]
fn flip_mask_occupied_square_is_zero() {
    let b = start_black();
    let w = start_white();
    assert_eq!(generate_flip_mask(b, w, 0, 27), 0);
    assert_eq!(generate_flip_mask(b, w, 0, 28), 0);
    assert_eq!(generate_flip_mask(b, w, 1, 35), 0);
}

#[test]
fn flip_mask_out_of_range_is_zero() {
    let b = start_black();
    let w = start_white();
    assert_eq!(generate_flip_mask(b, w, 0, 64), 0);
    assert_eq!(generate_flip_mask(b, w, 0, 100), 0);
    assert_eq!(generate_flip_mask(b, w, 1, 255), 0);
}

#[test]
fn flip_mask_start_moves() {
    let b = start_black();
    let w = start_white();
    // Each opening move flips exactly the one adjacent white disc.
    assert_eq!(generate_flip_mask(b, w, 0, 19), 1u64 << 27);
    assert_eq!(generate_flip_mask(b, w, 0, 26), 1u64 << 27);
    assert_eq!(generate_flip_mask(b, w, 0, 37), 1u64 << 36);
    assert_eq!(generate_flip_mask(b, w, 0, 44), 1u64 << 36);
    // A square that captures nothing flips nothing.
    assert_eq!(generate_flip_mask(b, w, 0, 0), 0);
}

#[test]
fn flip_mask_long_run() {
    // Rank 0: white fills b1..g1 and black holds h1; black playing a1
    // flips the whole six-disc run.
    let w = 0b01111110u64;
    let b = 1u64 << 7;
    assert_eq!(generate_flip_mask(b, w, 0, 0), w);
}

#[test]
fn walk_does_not_wrap_files() {
    // An eastward walk from h1 (square 7) must not continue at a2 (square
    // 8): with an opponent disc on a2 and a mover's disc on b2 the ray
    // would otherwise read as a capture.
    assert!(!has_captures_in_direction(1u64 << 9, 1u64 << 8, 7, 1));
    // A westward walk from a2 (square 8) must not continue at h1.
    assert!(!has_captures_in_direction(1u64 << 6, 1u64 << 7, 8, -1));
}

#[test]
fn shift_dir_never_wraps() {
    // East/west shifts never set bits outside the intended file range.
    assert_eq!(shift_dir(u64::MAX, 1) & FILE_A, 0);
    assert_eq!(shift_dir(u64::MAX, 9) & FILE_A, 0);
    assert_eq!(shift_dir(u64::MAX, -7) & FILE_A, 0);
    assert_eq!(shift_dir(u64::MAX, -1) & FILE_H, 0);
    assert_eq!(shift_dir(u64::MAX, -9) & FILE_H, 0);
    assert_eq!(shift_dir(u64::MAX, 7) & FILE_H, 0);
    assert_eq!(shift_dir(1u64 << 7, 1), 0);
    assert_eq!(shift_dir(1u64 << 8, -1), 0);
    assert_eq!(shift_dir(1u64 << 0, -1), 0);
}

#[test]
fn shift_dir_moves_single_bits() {
    assert_eq!(shift_dir(1u64 << 0, 8), 1u64 << 8);
    assert_eq!(shift_dir(1u64 << 8, -8), 1u64 << 0);
    assert_eq!(shift_dir(1u64 << 0, 1), 1u64 << 1);
    assert_eq!(shift_dir(1u64 << 1, -1), 1u64 << 0);
    assert_eq!(shift_dir(1u64 << 0, 9), 1u64 << 9);
    assert_eq!(shift_dir(1u64 << 1, 7), 1u64 << 8);
    assert_eq!(shift_dir(1u64 << 8, -7), 1u64 << 1);
    assert_eq!(shift_dir(1u64 << 9, -9), 1u64 << 0);
    assert_eq!(shift_dir(1u64 << 63, 8), 0);
    assert_eq!(shift_dir(1u64 << 0, -8), 0);
}

#[test]
fn popcount_values() {
    assert_eq!(popcount(0), 0);
    assert_eq!(popcount(1), 1);
    assert_eq!(popcount(0xFF), 8);
    assert_eq!(popcount(u64::MAX), 64);
    assert_eq!(popcount(0x8000000000000001), 2);
}

#[test]
fn empty_and_full_boards_have_no_moves() {
    assert_eq!(generate_legal_mask(0, 0, 0), 0);
    assert_eq!(generate_legal_mask(0, 0, 1), 0);
    assert_eq!(generate_legal_mask(u64::MAX, 0, 0), 0);
    assert_eq!(generate_legal_mask(0xFFFFFFFF00000000, 0x00000000FFFFFFFF, 0), 0);
    assert_eq!(generate_flip_mask(0, 0, 0, 27), 0);
}

#[test]
fn legal_squares_are_exactly_those_with_flips() {
    // A square is legal exactly when it is empty and its move flips at
    // least one disc.
    let boards = [
        (start_black(), start_white()),
        (0xFFFFFFFFFFFF0000u64, 0x000000000000FF00u64),
        (0x0000001818000000u64, 0x0000182424180000u64 & !0x0000001818000000u64),
    ];
    for &(b, w) in boards.iter() {
        for stm in 0..2u8 {
            let legal = generate_legal_mask(b, w, stm);
            for sq in 0..64u8 {
                let is_legal = legal & (1u64 << sq) != 0;
                let empty = (b | w) & (1u64 << sq) == 0;
                let flips = generate_flip_mask(b, w, stm, sq);
                assert_eq!(is_legal, empty && flips != 0);
            }
        }
    }
}

#[test]
fn potential_mobility_antisymmetric() {
    let boards = [
        (start_black(), start_white()),
        (0xFFu64, 0xFF00u64),
        (1u64 << 27, 0u64),
    ];
    for &(b, w) in boards.iter() {
        assert_eq!(
            calculate_potential_mobility(b, w, 0),
            -calculate_potential_mobility(b, w, 1)
        );
    }
}

#[test]
fn potential_mobility_values() {
    // A lone black disc beside empties: the mover's own frontier counts
    // against it.
    assert_eq!(calculate_potential_mobility(1u64 << 27, 0, 0), -1);
    assert_eq!(calculate_potential_mobility(1u64 << 27, 0, 1), 1);
    // The start position is symmetric: both frontiers are 2 discs.
    assert_eq!(calculate_potential_mobility(start_black(), start_white(), 0), 0);
}
