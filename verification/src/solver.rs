//! Exact endgame solver: negamax search with fail-hard alpha-beta pruning
//! over the remaining-move budget, a transposition table of exactly solved
//! positions, and a cooperative wall-clock timeout.
//!
//! The game value is a recursive specification; the search returns the game
//! value clamped to its window, so with the full root window the result is
//! the exact score. A transposition entry keeps the full position and is
//! stored only when its score was settled strictly inside the window, so a
//! probe never trusts a hash collision or a window-cut bound.

use crate::bitboards::{lemma_nonzero_has_bit, sq_bit};
use crate::movegen::{
    flips_spec, generate_flip_mask, generate_legal_mask, legal_spec, lemma_flips_in_opp,
    lemma_legal_bit, lemma_legal_disjoint_occupied, opp_of, own_of,
};
use crate::popcount::{lemma_pc_bound, lemma_pc_or_disjoint, lemma_pc_set_bit, pc, popcount};
use std::collections::HashMap;
use vstd::prelude::*;

verus! {

broadcast use vstd::std_specs::hash::group_hash_axioms;

/// The terminal score: 100 points per disc of advantage for the mover.
pub open spec fn disc_diff_score(own: u64, opp: u64) -> int {
    100 * (pc(own) as int - pc(opp) as int)
}

/// The mover's mask after playing `sq`: it gains the square and the flips.
pub open spec fn apply_own(own: u64, opp: u64, sq: int) -> u64 {
    own | sq_bit(sq) | flips_spec(own, opp, sq)
}

/// The opponent's mask after the mover plays `sq`: it loses the flips.
pub open spec fn apply_opp(own: u64, opp: u64, sq: int) -> u64 {
    opp & !flips_spec(own, opp, sq)
}

/// The negamax value of a position for the side owning `own`, searching
/// until the remaining-move budget is spent or neither side can move.
/// A pass hands the turn over without consuming budget; a move consumes
/// one unit. Terminal positions score `disc_diff_score`.
pub open spec fn game_value(own: u64, opp: u64, budget: nat) -> int
    decreases budget, (if legal_spec(own, opp) == 0 {
        1int
    } else {
        0int
    }), 65int,
{
    if budget == 0 {
        disc_diff_score(own, opp)
    } else if legal_spec(own, opp) == 0 {
        if legal_spec(opp, own) == 0 {
            disc_diff_score(own, opp)
        } else {
            -game_value(opp, own, budget)
        }
    } else {
        best_value_upto(own, opp, budget, 64)
    }
}

/// The best negamax child score over the legal squares with index below
/// `n`; -100000 stands below every real score when no such square exists.
pub open spec fn best_value_upto(own: u64, opp: u64, budget: nat, n: int) -> int
    decreases budget, (if legal_spec(own, opp) == 0 {
        1int
    } else {
        0int
    }), n,
{
    if budget == 0 || n <= 0 {
        -100000
    } else {
        let rest = best_value_upto(own, opp, budget, n - 1);
        if legal_spec(own, opp) & sq_bit(n - 1) != 0 {
            let child = -game_value(
                apply_opp(own, opp, n - 1),
                apply_own(own, opp, n - 1),
                (budget - 1) as nat,
            );
            if child > rest {
                child
            } else {
                rest
            }
        } else {
            rest
        }
    }
}

/// `v` confined to the window `[lo, hi]`.
pub open spec fn clamp_spec(v: int, lo: int, hi: int) -> int {
    if v < lo {
        lo
    } else if v > hi {
        hi
    } else {
        v
    }
}

proof fn lemma_best_value_upto_mono(own: u64, opp: u64, budget: nat, n1: int, n2: int)
    requires
        n1 <= n2,
    ensures
        best_value_upto(own, opp, budget, n1) <= best_value_upto(own, opp, budget, n2),
    decreases n2,
{
    if n1 < n2 && n2 > 0 {
        lemma_best_value_upto_mono(own, opp, budget, n1, n2 - 1);
    }
}

proof fn lemma_best_value_upto_le(own: u64, opp: u64, budget: nat, n: int)
    ensures
        best_value_upto(own, opp, budget, n) <= 6400 || best_value_upto(own, opp, budget, n)
            == -100000,
    decreases budget, (if legal_spec(own, opp) == 0 {
        1int
    } else {
        0int
    }), n,
{
    if budget > 0 && n > 0 {
        lemma_best_value_upto_le(own, opp, budget, n - 1);
        if legal_spec(own, opp) & sq_bit(n - 1) != 0 {
            lemma_game_value_bounded(
                apply_opp(own, opp, n - 1),
                apply_own(own, opp, n - 1),
                (budget - 1) as nat,
            );
        }
    }
}

proof fn lemma_best_value_upto_ge_child(own: u64, opp: u64, budget: nat, s: int, n: int)
    requires
        budget > 0,
        0 <= s < n,
        legal_spec(own, opp) & sq_bit(s) != 0,
    ensures
        best_value_upto(own, opp, budget, n) >= -game_value(
            apply_opp(own, opp, s),
            apply_own(own, opp, s),
            (budget - 1) as nat,
        ),
    decreases n,
{
    if s == n - 1 {
    } else {
        lemma_best_value_upto_ge_child(own, opp, budget, s, n - 1);
    }
}

/// Scores of 100 per disc on a 64-square board stay within 6400.
pub proof fn lemma_game_value_bounded(own: u64, opp: u64, budget: nat)
    ensures
        -6400 <= game_value(own, opp, budget) <= 6400,
    decreases budget, (if legal_spec(own, opp) == 0 {
        1int
    } else {
        0int
    }), 66int,
{
    lemma_pc_bound(own);
    lemma_pc_bound(opp);
    if budget == 0 {
    } else if legal_spec(own, opp) == 0 {
        if legal_spec(opp, own) != 0 {
            lemma_game_value_bounded(opp, own, budget);
        }
    } else {
        lemma_best_value_upto_le(own, opp, budget, 64);
        lemma_nonzero_has_bit(legal_spec(own, opp));
        let s = choose|s: int| 0 <= s < 64 && legal_spec(own, opp) & sq_bit(s) != 0;
        lemma_best_value_upto_ge_child(own, opp, budget, s, 64);
        lemma_game_value_bounded(
            apply_opp(own, opp, s),
            apply_own(own, opp, s),
            (budget - 1) as nat,
        );
    }
}

/// A full board leaves no legal move for either side, so it is terminal
/// whatever budget remains and whatever path reached it.
pub proof fn lemma_full_board_terminal(own: u64, opp: u64, budget: nat)
    requires
        own | opp == 0xFFFFFFFFFFFFFFFFu64,
    ensures
        game_value(own, opp, budget) == disc_diff_score(own, opp),
{
    lemma_legal_disjoint_occupied(own, opp, 64);
    lemma_legal_disjoint_occupied(opp, own, 64);
    crate::bitboards::lemma_or_comm(opp, own);
    assert(legal_spec(own, opp) & 0xFFFFFFFFFFFFFFFFu64 == legal_spec(own, opp)) by (bit_vector);
    assert(legal_spec(opp, own) & 0xFFFFFFFFFFFFFFFFu64 == legal_spec(opp, own)) by (bit_vector);
    lemma_passless_terminal(own, opp, budget);
}

/// A position where neither side has a legal move is terminal whatever
/// budget remains and whatever path reached it.
pub proof fn lemma_passless_terminal(own: u64, opp: u64, budget: nat)
    requires
        legal_spec(own, opp) == 0,
        legal_spec(opp, own) == 0,
    ensures
        game_value(own, opp, budget) == disc_diff_score(own, opp),
{
}

/// Applying a legal move keeps the two colors disjoint and raises the
/// total number of discs by exactly one.
pub proof fn lemma_apply_move(own: u64, opp: u64, sq: int)
    requires
        own & opp == 0,
        0 <= sq < 64,
        legal_spec(own, opp) & sq_bit(sq) != 0,
    ensures
        apply_own(own, opp, sq) & apply_opp(own, opp, sq) == 0,
        pc(apply_own(own, opp, sq)) + pc(apply_opp(own, opp, sq)) == pc(own) + pc(opp) + 1,
{
    lemma_legal_bit(own, opp, sq);
    lemma_flips_in_opp(own, opp, sq);
    let f = flips_spec(own, opp, sq);
    let s = sq as u64;
    assert((own | (1u64 << s) | f) & (opp & !f) == 0 && ((own | (1u64 << s) | f) | (opp & !f)) == (
    (own | opp) | (1u64 << s))) by (bit_vector)
        requires
            own & opp == 0,
            (own | opp) & (1u64 << s) == 0,
            f & opp == f,
            s < 64,
    ;
    lemma_pc_set_bit(own | opp, s);
    lemma_pc_or_disjoint(own, opp);
    lemma_pc_or_disjoint(apply_own(own, opp, sq), apply_opp(own, opp, sq));
}

/// An xorshift round: a bijective mix that spreads the combined masks over
/// the whole key, stronger than a plain shift-XOR combine.
pub open spec fn mix64_spec(z: u64) -> u64 {
    let x = z ^ (z << 13);
    let y = x ^ (x >> 7);
    y ^ (y << 17)
}

/// A deterministic 64-bit key mixing the two masks and the side to move.
pub open spec fn zobrist_spec(b: u64, w: u64, stm: u8) -> u64 {
    if stm == 1 {
        mix64_spec(b ^ (w << 1) ^ (w >> 63) ^ 0x123456789ABCDEF0u64)
    } else {
        mix64_spec(b ^ (w << 1) ^ (w >> 63))
    }
}

/// Transposition-table key of a position and side to move.
pub fn zobrist_hash(b: u64, w: u64, stm: u8) -> (r: u64)
    ensures
        r == zobrist_spec(b, w, stm),
{
    let mut z = b ^ (w << 1u64) ^ (w >> 63u64);
    if stm == 1 {
        z = z ^ 0x123456789ABCDEF0u64;
    }
    z = z ^ (z << 13u64);
    z = z ^ (z >> 7u64);
    z ^ (z << 17u64)
}

/// Apply a move: the mover's mask gains the target square and the given
/// flips; the opponent's mask loses exactly the flips.
pub fn make_move(b: u64, w: u64, stm: u8, sq: u8, flips: u64) -> (r: (u64, u64))
    requires
        sq < 64,
    ensures
        own_of(r.0, r.1, stm) == (own_of(b, w, stm) | sq_bit(sq as int) | flips),
        opp_of(r.0, r.1, stm) == (opp_of(b, w, stm) & !flips),
{
    let move_bit: u64 = 1u64 << (sq as u64);
    proof {
        assert(move_bit == sq_bit(sq as int));
    }
    if stm == 0 {
        (b | move_bit | flips, w & !flips)
    } else {
        (b & !flips, w | move_bit | flips)
    }
}

/// `v` confined to the window `[lo, hi]`.
fn clamp_score(v: i16, lo: i16, hi: i16) -> (r: i16)
    requires
        lo <= hi,
    ensures
        r as int == clamp_spec(v as int, lo as int, hi as int),
{
    if v < lo {
        lo
    } else if v > hi {
        hi
    } else {
        v
    }
}

#[verifier::external_type_specification]
#[verifier::external_body]
pub struct ExInstant(std::time::Instant);

/// Relies on std::time::Instant::now: a reading of the monotonic clock.
/// The result depends on the clock, so nothing is promised of it.
#[verifier::external_body]
fn instant_now() -> std::time::Instant {
    std::time::Instant::now()
}

/// Relies on std::time::Instant::elapsed: the milliseconds since `start`.
/// The result depends on the wall clock, so nothing is promised of it.
#[verifier::external_body]
fn elapsed_millis(start: &std::time::Instant) -> u64 {
    start.elapsed().as_millis() as u64
}

/// One transposition-table entry: an exactly solved position, its score,
/// and the remaining-move budget it was solved with. The full position is
/// kept so a probe can reject a hash collision.
#[derive(Clone, Copy)]
pub struct TTEntry {
    pub own: u64,
    pub opp: u64,
    pub score: i16,
    pub depth: u8,
}

/// The search context owned by one solver call: the transposition table,
/// a node counter, and the wall-clock budget.
pub struct ExactSolver {
    pub tt: HashMap<u64, TTEntry>,
    pub nodes: u64,
    pub start_time: std::time::Instant,
    pub max_millis: u64,
}

impl ExactSolver {
    /// Every stored entry records the exact game value of its position at
    /// its recorded budget.
    pub open spec fn wf(self) -> bool {
        forall|k: u64| #[trigger]
            self.tt@.contains_key(k) ==> self.tt@[k].score as int == game_value(
                self.tt@[k].own,
                self.tt@[k].opp,
                self.tt@[k].depth as nat,
            )
    }

    /// A fresh solver with an empty table and a 30-second time budget. The
    /// size hint is accepted for the caller's convenience; the table is
    /// bounded by entry count instead.
    pub fn new(_tt_mb: u32) -> (r: ExactSolver)
        ensures
            r.wf(),
    {
        ExactSolver {
            tt: HashMap::new(),
            nodes: 0,
            start_time: instant_now(),
            max_millis: 30000,
        }
    }

    /// Negamax with fail-hard alpha-beta pruning: unless the time budget
    /// expires, the result is the game value clamped to `[alpha, beta]`.
    /// With no remaining budget the terminal score is returned at once,
    /// never a timeout.
    pub fn negamax(&mut self, b: u64, w: u64, stm: u8, empties: u8, alpha: i16, beta: i16) -> (r:
        Option<i16>)
        requires
            old(self).wf(),
            stm <= 1,
            -6400 <= alpha as int,
            alpha < beta,
            beta as int <= 6400,
        ensures
            final(self).wf(),
            r matches Some(v) ==> v as int == clamp_spec(
                game_value(own_of(b, w, stm), opp_of(b, w, stm), empties as nat),
                alpha as int,
                beta as int,
            ),
            empties == 0 ==> r is Some,
        decreases empties as int, (if legal_spec(own_of(b, w, stm), opp_of(b, w, stm)) == 0 {
            1int
        } else {
            0int
        }),
    {
        let ghost own_g = own_of(b, w, stm);
        let ghost opp_g = opp_of(b, w, stm);
        if self.nodes < u64::MAX {
            self.nodes = self.nodes + 1;
        }
        // Bound the table: clear it entirely rather than evict selectively.
        if self.tt.len() > 50000000 {
            self.tt.clear();
        }
        let own = if stm == 0 {
            b
        } else {
            w
        };
        let opp = if stm == 0 {
            w
        } else {
            b
        };
        // Terminal: the remaining-move budget is spent.
        if empties == 0 {
            let pb = popcount(own);
            let po = popcount(opp);
            let diff = ((pb as i16) - (po as i16)) * 100;
            proof {
                assert(diff as int == disc_diff_score(own_g, opp_g));
            }
            return Some(clamp_score(diff, alpha, beta));
        }
        // Cooperative timeout: poll the clock every 10000 nodes.
        if self.nodes % 10000 == 0 && elapsed_millis(&self.start_time) > self.max_millis {
            return None;
        }
        let hash = zobrist_hash(b, w, stm);
        // Probe: usable only for the very same position at the same budget.
        let mut hit = false;
        let mut hit_score: i16 = 0;
        match self.tt.get(&hash) {
            Some(entry) => {
                if entry.own == own && entry.opp == opp && entry.depth == empties {
                    hit = true;
                    hit_score = entry.score;
                }
            },
            None => {},
        }
        if hit {
            return Some(clamp_score(hit_score, alpha, beta));
        }
        let legal = generate_legal_mask(b, w, stm);
        if legal == 0 {
            let pass_legal = generate_legal_mask(b, w, 1 - stm);
            proof {
                assert(own_of(b, w, (1 - stm) as u8) == opp_g && opp_of(b, w, (1 - stm) as u8) == own_g);
            }
            if pass_legal == 0 {
                // Neither side can move: the game is over.
                let pb = popcount(own);
                let po = popcount(opp);
                let diff = ((pb as i16) - (po as i16)) * 100;
                proof {
                    assert(diff as int == disc_diff_score(own_g, opp_g));
                }
                return Some(clamp_score(diff, alpha, beta));
            }
            // Pass: same board, same budget, side and window swapped.
            let sub = self.negamax(b, w, 1 - stm, empties, -beta, -alpha);
            match sub {
                None => return None,
                Some(v) => {
                    proof {
                        assert(-clamp_spec(
                            game_value(opp_g, own_g, empties as nat),
                            -beta as int,
                            -alpha as int,
                        ) == clamp_spec(
                            game_value(own_g, opp_g, empties as nat),
                            alpha as int,
                            beta as int,
                        ));
                    }
                    return Some(-v);
                },
            }
        }
        let mut best: i16 = alpha;
        let mut sq: u8 = 0;
        while sq < 64 && best < beta
            invariant
                self.wf(),
                stm <= 1,
                sq <= 64,
                empties > 0,
                own == own_of(b, w, stm),
                opp == opp_of(b, w, stm),
                own_g == own,
                opp_g == opp,
                legal == legal_spec(own, opp),
                legal != 0,
                -6400 <= alpha as int,
                alpha < beta,
                beta as int <= 6400,
                alpha <= best <= beta,
                best as int == clamp_spec(
                    best_value_upto(own, opp, empties as nat, sq as int),
                    alpha as int,
                    beta as int,
                ),
            decreases 64 - sq,
        {
            let bit: u64 = 1u64 << (sq as u64);
            proof {
                assert(bit == sq_bit(sq as int));
            }
            if legal & bit != 0 {
                let flips = generate_flip_mask(b, w, stm, sq);
                let next = make_move(b, w, stm, sq, flips);
                proof {
                    assert(own_of(next.0, next.1, (1 - stm) as u8) == apply_opp(own, opp, sq as int)
                        && opp_of(next.0, next.1, (1 - stm) as u8) == apply_own(own, opp, sq as int));
                }
                let sub = self.negamax(next.0, next.1, 1 - stm, empties - 1, -beta, -best);
                match sub {
                    None => return None,
                    Some(v) => {
                        let s = -v;
                        proof {
                            let g = -game_value(
                                apply_opp(own, opp, sq as int),
                                apply_own(own, opp, sq as int),
                                (empties - 1) as nat,
                            );
                            assert(s as int == clamp_spec(g, best as int, beta as int));
                            let u = best_value_upto(own, opp, empties as nat, sq as int);
                            assert(best_value_upto(own, opp, empties as nat, sq as int + 1) == (
                            if g > u {
                                g
                            } else {
                                u
                            }));
                        }
                        if s > best {
                            best = s;
                        }
                    },
                }
            } else {
                proof {
                    assert(best_value_upto(own, opp, empties as nat, sq as int + 1)
                        == best_value_upto(own, opp, empties as nat, sq as int));
                }
            }
            sq = sq + 1;
        }
        proof {
            if best == beta && sq < 64 {
                lemma_best_value_upto_mono(own, opp, empties as nat, sq as int, 64);
            }
            assert(best as int == clamp_spec(
                game_value(own_g, opp_g, empties as nat),
                alpha as int,
                beta as int,
            ));
        }
        // Store only a score settled strictly inside the window: it is the
        // exact game value, so the entry never records a cut-off bound.
        if alpha < best && best < beta && self.tt.len() < 40000000 {
            let entry = TTEntry { own, opp, score: best, depth: empties };
            let ghost old_tt = self.tt@;
            self.tt.insert(hash, entry);
            proof {
                assert forall|k: u64| #[trigger]
                    self.tt@.contains_key(k) implies self.tt@[k].score as int == game_value(
                    self.tt@[k].own,
                    self.tt@[k].opp,
                    self.tt@[k].depth as nat,
                ) by {
                    if k != hash {
                        assert(old_tt.contains_key(k));
                    }
                }
            }
        }
        Some(best)
    }

    /// Solve a position to its exact score with the full window; 0 when
    /// the internal time budget expired first.
    pub fn solve(&mut self, b: u64, w: u64, stm: u8, empties: u8) -> (r: i16)
        requires
            old(self).wf(),
            stm <= 1,
        ensures
            final(self).wf(),
            r as int == game_value(own_of(b, w, stm), opp_of(b, w, stm), empties as nat) || r == 0,
            empties == 0 ==> r as int == disc_diff_score(own_of(b, w, stm), opp_of(b, w, stm)),
    {
        self.nodes = 0;
        self.start_time = instant_now();
        proof {
            lemma_game_value_bounded(own_of(b, w, stm), opp_of(b, w, stm), empties as nat);
        }
        let sub = self.negamax(b, w, stm, empties, -6400, 6400);
        match sub {
            Some(v) => v,
            None => 0,
        }
    }
}

/// Exact endgame solver. Returns 0 at once when more than 16 empties
/// remain (the caller falls back to a heuristic); otherwise the exact
/// negamax score of the position scaled by 100 for the side to move, or
/// the neutral score 0 if the internal 30-second budget expires.
pub fn solve_exact(b: u64, w: u64, stm: u8, empties: u8, tt_mb: u32) -> (r: i16)
    requires
        stm <= 1,
    ensures
        empties > 16 ==> r == 0,
        r as int == game_value(own_of(b, w, stm), opp_of(b, w, stm), empties as nat) || r == 0,
        empties == 0 ==> r as int == disc_diff_score(own_of(b, w, stm), opp_of(b, w, stm)),
{
    if empties > 16 {
        return 0;
    }
    let mut solver = ExactSolver::new(tt_mb);
    solver.solve(b, w, stm, empties)
}

} // verus!
