use othello_core::movegen::{generate_flip_mask, generate_legal_mask};
use othello_core::popcount::popcount;
use othello_core::solver::{make_move, solve_exact, zobrist_hash, ExactSolver};

fn start_black() -> u64 {
    (1u64 << 28) | (1u64 << 35)
}

fn start_white() -> u64 {
    (1u64 << 27) | (1u64 << 36)
}

/// Plain full-width negamax over the same move generator, as a reference
/// for the pruned, table-backed search.
fn reference_negamax(b: u64, w: u64, stm: u8, empties: u8) -> i32 {
    let disc_diff = |b: u64, w: u64, stm: u8| -> i32 {
        let diff = popcount(b) as i32 - popcount(w) as i32;
        if stm == 0 {
            diff * 100
        } else {
            -diff * 100
        }
    };
    if empties == 0 {
        return disc_diff(b, w, stm);
    }
    let legal = generate_legal_mask(b, w, stm);
    if legal == 0 {
        if generate_legal_mask(b, w, 1 - stm) == 0 {
            return disc_diff(b, w, stm);
        }
        return -reference_negamax(b, w, 1 - stm, empties);
    }
    let mut best = i32::MIN;
    for sq in 0..64u8 {
        if legal & (1u64 << sq) != 0 {
            let flips = generate_flip_mask(b, w, stm, sq);
            let (nb, nw) = make_move(b, w, stm, sq, flips);
            let score = -reference_negamax(nb, nw, 1 - stm, empties - 1);
            if score > best {
                best = score;
            }
        }
    }
    best
}

#[test]
fn solver_empties_zero_is_disc_difference() {
    let b = 0xFFu64;
    let w = 0x100u64;
    assert_eq!(solve_exact(b, w, 0, 0, 0), 700);
    assert_eq!(solve_exact(b, w, 1, 0, 0), -700);
}

#[test]
fn solver_over_sixteen_empties_returns_zero() {
    assert_eq!(solve_exact(start_black(), start_white(), 0, 17, 64), 0);
    assert_eq!(solve_exact(start_black(), start_white(), 0, 255, 64), 0);
}

#[test]
fn solver_passless_board_is_terminal() {
    // A lone black disc: neither side has a legal move, so the position is
    // terminal at any remaining budget.
    assert_eq!(solve_exact(1, 0, 0, 16, 0), 100);
    assert_eq!(solve_exact(1, 0, 0, 5, 0), 100);
    assert_eq!(solve_exact(1, 0, 1, 16, 0), -100);
}

#[test]
fn solver_empty_board_is_a_draw() {
    // No discs at all: neither side can move, and the disc counts tie.
    assert_eq!(solve_exact(0, 0, 0, 16, 0), 0);
}

#[test]
fn solver_single_forced_move() {
    // Only a1 is empty; white holds b1 and c1, black everything else.
    // Black plays a1, flips both white discs, and owns the full board.
    let w = (1u64 << 1) | (1u64 << 2);
    let b = !(1u64 | w);
    assert_eq!(solve_exact(b, w, 0, 1, 0), 6400);
    // White to move cannot play anywhere and passes; black then fills the
    // board, so from white's side the score is the negation.
    assert_eq!(solve_exact(b, w, 1, 1, 0), -6400);
}

#[test]
fn solver_matches_reference_negamax() {
    // Rank 1 is empty, rank 2 is white, the rest is black: an 8-empty
    // endgame searched both by the pruned solver and by plain negamax.
    let b = 0xFFFFFFFFFFFF0000u64;
    let w = 0x000000000000FF00u64;
    for stm in 0..2u8 {
        let expected = reference_negamax(b, w, stm, 8);
        assert_eq!(solve_exact(b, w, stm, 8, 16) as i32, expected);
    }
}

#[test]
fn solver_matches_reference_on_corner_pocket() {
    // A 5-square empty pocket around the a1 corner; white wedged inside.
    let empty = 0b111u64 | (1u64 << 8) | (1u64 << 16);
    let w = (1u64 << 9) | (1u64 << 10) | (1u64 << 17);
    let b = !(empty | w);
    for stm in 0..2u8 {
        let expected = reference_negamax(b, w, stm, 5);
        assert_eq!(solve_exact(b, w, stm, 5, 16) as i32, expected);
    }
}

#[test]
fn make_move_preserves_disjointness_and_count() {
    let b = start_black();
    let w = start_white();
    let legal = generate_legal_mask(b, w, 0);
    for sq in 0..64u8 {
        if legal & (1u64 << sq) != 0 {
            let flips = generate_flip_mask(b, w, 0, sq);
            let (nb, nw) = make_move(b, w, 0, sq, flips);
            assert_eq!(nb & nw, 0);
            assert_eq!(popcount(nb) + popcount(nw), popcount(b) + popcount(w) + 1);
        }
    }
}

#[test]
fn zobrist_is_deterministic_and_side_sensitive() {
    let b = start_black();
    let w = start_white();
    assert_eq!(zobrist_hash(b, w, 0), zobrist_hash(b, w, 0));
    assert_ne!(zobrist_hash(b, w, 0), zobrist_hash(b, w, 1));
    assert_ne!(zobrist_hash(b, w, 0), zobrist_hash(w, b, 0));
}

#[test]
fn solver_reuse_across_calls() {
    // One solver context can serve several searches; results match the
    // one-shot entry point.
    let mut solver = ExactSolver::new(0);
    let b = 0xFFFFFFFFFFFF0000u64;
    let w = 0x000000000000FF00u64;
    let first = solver.solve(b, w, 0, 8);
    let second = solver.solve(b, w, 0, 8);
    assert_eq!(first, second);
    assert_eq!(first, solve_exact(b, w, 0, 8, 16));
}
