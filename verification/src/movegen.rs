//! Move generation: legal-move masks, flip masks and potential mobility,
//! each specified by a direct mathematical reading of the ray-walk rule and
//! proved against it.

use crate::bitboards::{
    adjacent_spec, lemma_and_comm, lemma_bit_in_mask, lemma_bit_or_char, lemma_bit_or_nonzero,
    lemma_bit_single, lemma_not_bit, lemma_or8_zero, lemma_or_assoc, lemma_or_comm,
    lemma_or_preserves_disjoint, lemma_or_subset, lemma_zero_mask, sq_bit, step_ok, valid_dir,
};
use crate::bitboards::shift_dir;
use crate::popcount::{pc, popcount};
use vstd::prelude::*;

verus! {

/// The mask whose discs move: black when `stm == 0`, white otherwise.
pub open spec fn own_of(b: u64, w: u64, stm: u8) -> u64 {
    if stm == 0 {
        b
    } else {
        w
    }
}

/// The mask whose discs stand still: white when `stm == 0`, black otherwise.
pub open spec fn opp_of(b: u64, w: u64, stm: u8) -> u64 {
    if stm == 0 {
        w
    } else {
        b
    }
}

/// Walking from `pos` one step at a time in `dir`: the (possibly empty) run
/// of opponent discs beginning at the next square ends on a mover's disc,
/// rather than at an edge, a file wrap, or an empty square.
pub open spec fn run_closed(own: u64, opp: u64, pos: int, dir: int) -> bool
    decreases (if dir > 0 {
        64 - pos
    } else {
        pos
    }),
{
    step_ok(pos, dir) && {
        let nxt = pos + dir;
        if opp & sq_bit(nxt) != 0 {
            run_closed(own, opp, nxt, dir)
        } else {
            own & sq_bit(nxt) != 0
        }
    }
}

/// A disc placed on `sq` captures along `dir`: the next square in `dir`
/// holds an opponent disc and the run it begins is closed by a mover's disc.
pub open spec fn dir_captures(own: u64, opp: u64, sq: int, dir: int) -> bool {
    step_ok(sq, dir) && opp & sq_bit(sq + dir) != 0 && run_closed(own, opp, sq + dir, dir)
}

/// The contiguous run of opponent discs that starts one step after `pos`.
pub open spec fn run_mask(opp: u64, pos: int, dir: int) -> u64
    decreases (if dir > 0 {
        64 - pos
    } else {
        pos
    }),
{
    if step_ok(pos, dir) && opp & sq_bit(pos + dir) != 0 {
        sq_bit(pos + dir) | run_mask(opp, pos + dir, dir)
    } else {
        0
    }
}

/// The discs flipped along `dir` by a move on `sq`: the opponent run after
/// `sq`, committed only when a mover's disc closes it.
pub open spec fn dir_flips(own: u64, opp: u64, sq: int, dir: int) -> u64 {
    if dir_captures(own, opp, sq, dir) {
        run_mask(opp, sq, dir)
    } else {
        0
    }
}

/// Some one of the 8 directions captures from `sq`.
pub open spec fn any_dir_captures(own: u64, opp: u64, sq: int) -> bool {
    ||| dir_captures(own, opp, sq, 8)
    ||| dir_captures(own, opp, sq, -8)
    ||| dir_captures(own, opp, sq, 1)
    ||| dir_captures(own, opp, sq, -1)
    ||| dir_captures(own, opp, sq, 9)
    ||| dir_captures(own, opp, sq, 7)
    ||| dir_captures(own, opp, sq, -7)
    ||| dir_captures(own, opp, sq, -9)
}

/// `sq` is a legal move: an empty square from which some direction captures.
pub open spec fn sq_legal(own: u64, opp: u64, sq: int) -> bool {
    0 <= sq < 64 && (own | opp) & sq_bit(sq) == 0 && any_dir_captures(own, opp, sq)
}

/// The legal squares among indices `0 .. n`, as a mask.
pub open spec fn legal_upto(own: u64, opp: u64, n: int) -> u64
    decreases n,
{
    if n <= 0 {
        0
    } else {
        legal_upto(own, opp, n - 1) | (if sq_legal(own, opp, n - 1) {
            sq_bit(n - 1)
        } else {
            0
        })
    }
}

/// The mask of all legal moves for the side owning `own`.
pub open spec fn legal_spec(own: u64, opp: u64) -> u64 {
    legal_upto(own, opp, 64)
}

/// The full flip set of a move on `sq`: the union over the 8 directions,
/// or 0 when `sq` is out of range or occupied.
pub open spec fn flips_spec(own: u64, opp: u64, sq: int) -> u64 {
    if 0 <= sq < 64 && (own | opp) & sq_bit(sq) == 0 {
        dir_flips(own, opp, sq, 8) | dir_flips(own, opp, sq, -8) | dir_flips(own, opp, sq, 1)
            | dir_flips(own, opp, sq, -1) | dir_flips(own, opp, sq, 9) | dir_flips(own, opp, sq, 7)
            | dir_flips(own, opp, sq, -7) | dir_flips(own, opp, sq, -9)
    } else {
        0
    }
}

/// Whether a move at `sq` captures at least one opponent disc along `dir`.
pub fn has_captures_in_direction(own: u64, opp: u64, sq: u8, dir: i8) -> (r: bool)
    requires
        sq < 64,
    ensures
        r == dir_captures(own, opp, sq as int, dir as int),
{
    let valid = dir == 8 || dir == -8 || dir == 1 || dir == -1 || dir == 9 || dir == 7 || dir == -7
        || dir == -9;
    if !valid {
        return false;
    }
    let d: i16 = dir as i16;
    let mut pos: i16 = sq as i16;
    let mut seen: bool = false;
    loop
        invariant
            valid_dir(dir as int),
            d == dir as int,
            sq < 64,
            0 <= pos < 64,
            !seen ==> pos == sq as int,
            seen ==> dir_captures(own, opp, sq as int, dir as int) == run_closed(
                own,
                opp,
                pos as int,
                dir as int,
            ),
        decreases (if d > 0 {
            64 - pos as int
        } else {
            pos as int
        }),
    {
        let nxt = pos + d;
        if nxt < 0 || nxt >= 64 {
            return false;
        }
        let east = d == 1 || d == 9 || d == -7;
        let west = d == -1 || d == -9 || d == 7;
        if east && nxt % 8 == 0 {
            return false;
        }
        if west && nxt % 8 == 7 {
            return false;
        }
        let nb: u64 = 1u64 << (nxt as u64);
        proof {
            assert(step_ok(pos as int, dir as int));
            assert(nb == sq_bit(nxt as int));
        }
        if opp & nb != 0 {
            seen = true;
            pos = nxt;
        } else if own & nb != 0 {
            return seen;
        } else {
            return false;
        }
    }
}

/// Legal move mask for the side to move: every empty square from which some
/// direction captures. No legal square is occupied: `r & (b | w) == 0`.
pub fn generate_legal_mask(b: u64, w: u64, stm: u8) -> (r: u64)
    ensures
        r == legal_spec(own_of(b, w, stm), opp_of(b, w, stm)),
        r & (b | w) == 0,
{
    let own = if stm == 0 {
        b
    } else {
        w
    };
    let opp = if stm == 0 {
        w
    } else {
        b
    };
    let empty = !(b | w);
    let mut legal: u64 = 0;
    let mut sq: u8 = 0;
    proof {
        lemma_zero_mask(b | w);
    }
    while sq < 64
        invariant
            sq <= 64,
            own == own_of(b, w, stm),
            opp == opp_of(b, w, stm),
            empty == !(b | w),
            legal == legal_upto(own, opp, sq as int),
            legal & (b | w) == 0,
        decreases 64 - sq,
    {
        let bit: u64 = 1u64 << (sq as u64);
        proof {
            lemma_or_comm(b, w);
            lemma_not_bit(b | w, sq as u64);
            lemma_zero_mask(legal);
            assert(bit == sq_bit(sq as int));
            assert(own | opp == b | w);
        }
        if empty & bit != 0 {
            let found = has_captures_in_direction(own, opp, sq, 8) || has_captures_in_direction(
                own,
                opp,
                sq,
                -8,
            ) || has_captures_in_direction(own, opp, sq, 1) || has_captures_in_direction(
                own,
                opp,
                sq,
                -1,
            ) || has_captures_in_direction(own, opp, sq, 9) || has_captures_in_direction(
                own,
                opp,
                sq,
                7,
            ) || has_captures_in_direction(own, opp, sq, -7) || has_captures_in_direction(
                own,
                opp,
                sq,
                -9,
            );
            if found {
                proof {
                    lemma_or_preserves_disjoint(legal, bit, b | w);
                }
                legal = legal | bit;
            }
        }
        sq = sq + 1;
    }
    legal
}

/// The discs flipped along one direction by a move on `sq`, committed only
/// when the walk ends on a mover's disc.
fn ray_flips(own: u64, opp: u64, sq: u8, dir: i8) -> (r: u64)
    requires
        sq < 64,
    ensures
        r == dir_flips(own, opp, sq as int, dir as int),
{
    let valid = dir == 8 || dir == -8 || dir == 1 || dir == -1 || dir == 9 || dir == 7 || dir == -7
        || dir == -9;
    if !valid {
        return 0;
    }
    let d: i16 = dir as i16;
    let mut pos: i16 = sq as i16;
    let mut temp: u64 = 0;
    proof {
        lemma_zero_mask(run_mask(opp, sq as int, dir as int));
    }
    loop
        invariant
            valid_dir(dir as int),
            d == dir as int,
            sq < 64,
            0 <= pos < 64,
            d > 0 ==> pos >= sq as int,
            d < 0 ==> pos <= sq as int,
            pos == sq as int ==> temp == 0,
            run_mask(opp, sq as int, dir as int) == temp | run_mask(opp, pos as int, dir as int),
            pos != sq as int ==> dir_captures(own, opp, sq as int, dir as int) == run_closed(
                own,
                opp,
                pos as int,
                dir as int,
            ),
        decreases (if d > 0 {
            64 - pos as int
        } else {
            pos as int
        }),
    {
        let nxt = pos + d;
        if nxt < 0 || nxt >= 64 {
            return 0;
        }
        let east = d == 1 || d == 9 || d == -7;
        let west = d == -1 || d == -9 || d == 7;
        if east && nxt % 8 == 0 {
            return 0;
        }
        if west && nxt % 8 == 7 {
            return 0;
        }
        let nb: u64 = 1u64 << (nxt as u64);
        proof {
            assert(step_ok(pos as int, dir as int));
            assert(nb == sq_bit(nxt as int));
        }
        if opp & nb != 0 {
            proof {
                lemma_or_assoc(temp, nb, run_mask(opp, nxt as int, dir as int));
            }
            temp = temp | nb;
            pos = nxt;
        } else if own & nb != 0 {
            if pos == sq as i16 {
                return 0;
            }
            proof {
                assert(run_closed(own, opp, pos as int, dir as int));
                assert(run_mask(opp, pos as int, dir as int) == 0);
                lemma_zero_mask(temp);
            }
            return temp;
        } else {
            return 0;
        }
    }
}

/// Flip mask of a move on `sq` for the side to move. An occupied or
/// out-of-range square flips nothing: the result is 0, a defined sentinel.
pub fn generate_flip_mask(b: u64, w: u64, stm: u8, sq: u8) -> (r: u64)
    ensures
        r == flips_spec(own_of(b, w, stm), opp_of(b, w, stm), sq as int),
        sq >= 64 ==> r == 0,
        sq < 64 && (b | w) & sq_bit(sq as int) != 0 ==> r == 0,
{
    if sq >= 64 {
        return 0;
    }
    let own = if stm == 0 {
        b
    } else {
        w
    };
    let opp = if stm == 0 {
        w
    } else {
        b
    };
    let move_bit: u64 = 1u64 << (sq as u64);
    proof {
        lemma_or_comm(b, w);
        assert(move_bit == sq_bit(sq as int));
        assert(own | opp == b | w);
    }
    if (b | w) & move_bit != 0 {
        return 0;
    }
    ray_flips(own, opp, sq, 8) | ray_flips(own, opp, sq, -8) | ray_flips(own, opp, sq, 1)
        | ray_flips(own, opp, sq, -1) | ray_flips(own, opp, sq, 9) | ray_flips(own, opp, sq, 7)
        | ray_flips(own, opp, sq, -7) | ray_flips(own, opp, sq, -9)
}

/// The signed potential-mobility score for the side owning `own`: opponent
/// discs beside an empty square minus the mover's discs beside one.
pub open spec fn potential_mobility_spec(own: u64, opp: u64) -> int {
    pc(opp & adjacent_spec(!(own | opp))) - pc(own & adjacent_spec(!(own | opp)))
}

/// Potential mobility: a signed count of opponent discs adjacent to at least
/// one empty square, minus the same count for the side to move.
pub fn calculate_potential_mobility(b: u64, w: u64, stm: u8) -> (r: i16)
    ensures
        r as int == potential_mobility_spec(own_of(b, w, stm), opp_of(b, w, stm)),
{
    let own = if stm == 0 {
        b
    } else {
        w
    };
    let opp = if stm == 0 {
        w
    } else {
        b
    };
    let empty = !(b | w);
    proof {
        lemma_or_comm(b, w);
        assert(own | opp == b | w);
    }
    let adjacent_to_empty = shift_dir(empty, 8) | shift_dir(empty, -8) | shift_dir(empty, 1)
        | shift_dir(empty, -1) | shift_dir(empty, 9) | shift_dir(empty, 7) | shift_dir(empty, -7)
        | shift_dir(empty, -9);
    let opp_potential = popcount(opp & adjacent_to_empty);
    let own_potential = popcount(own & adjacent_to_empty);
    (opp_potential as i16) - (own_potential as i16)
}

/// Potential mobility is antisymmetric: swapping which mask counts as the
/// mover's negates the score.
pub proof fn lemma_potential_mobility_antisymmetric(own: u64, opp: u64)
    ensures
        potential_mobility_spec(own, opp) == -potential_mobility_spec(opp, own),
{
    lemma_or_comm(own, opp);
}

proof fn lemma_legal_upto_bit(own: u64, opp: u64, n: int, s: int)
    requires
        0 <= s < 64,
        n <= 64,
    ensures
        (legal_upto(own, opp, n) & sq_bit(s) != 0) == (s < n && sq_legal(own, opp, s)),
    decreases n,
{
    if n <= 0 {
        lemma_zero_mask(sq_bit(s));
    } else {
        lemma_legal_upto_bit(own, opp, n - 1, s);
        let prev = legal_upto(own, opp, n - 1);
        if sq_legal(own, opp, n - 1) {
            lemma_bit_or_char(prev, sq_bit(n - 1), s as u64);
            lemma_bit_single((n - 1) as u64, s as u64);
        } else {
            lemma_bit_or_char(prev, 0u64, s as u64);
            lemma_zero_mask(1u64 << (s as u64));
        }
    }
}

/// A bit of the legal mask marks exactly a legal square.
pub proof fn lemma_legal_bit(own: u64, opp: u64, s: int)
    requires
        0 <= s < 64,
    ensures
        (legal_spec(own, opp) & sq_bit(s) != 0) == sq_legal(own, opp, s),
{
    lemma_legal_upto_bit(own, opp, 64, s);
}

/// No legal square is occupied: the legal mask avoids both colors.
pub proof fn lemma_legal_disjoint_occupied(own: u64, opp: u64, n: int)
    ensures
        legal_upto(own, opp, n) & (own | opp) == 0,
    decreases n,
{
    if n <= 0 {
        lemma_zero_mask(own | opp);
    } else {
        lemma_legal_disjoint_occupied(own, opp, n - 1);
        let prev = legal_upto(own, opp, n - 1);
        if sq_legal(own, opp, n - 1) {
            lemma_not_bit(own | opp, (n - 1) as u64);
            lemma_or_preserves_disjoint(prev, sq_bit(n - 1), own | opp);
        } else {
            lemma_zero_mask(own | opp);
            lemma_or_preserves_disjoint(prev, 0u64, own | opp);
        }
    }
}

proof fn lemma_dir_captures_iff_flips(own: u64, opp: u64, sq: int, dir: int)
    ensures
        dir_captures(own, opp, sq, dir) == (dir_flips(own, opp, sq, dir) != 0),
{
    if dir_captures(own, opp, sq, dir) {
        lemma_bit_or_nonzero(run_mask(opp, sq + dir, dir), (sq + dir) as u64);
    }
}

/// A square is legal exactly when it is empty and its move would flip at
/// least one opponent disc: the legal mask and the flip mask cohere.
pub proof fn lemma_legal_iff_flips(own: u64, opp: u64, sq: int)
    requires
        0 <= sq < 64,
    ensures
        sq_legal(own, opp, sq) == ((own | opp) & sq_bit(sq) == 0 && flips_spec(own, opp, sq) != 0),
{
    lemma_dir_captures_iff_flips(own, opp, sq, 8);
    lemma_dir_captures_iff_flips(own, opp, sq, -8);
    lemma_dir_captures_iff_flips(own, opp, sq, 1);
    lemma_dir_captures_iff_flips(own, opp, sq, -1);
    lemma_dir_captures_iff_flips(own, opp, sq, 9);
    lemma_dir_captures_iff_flips(own, opp, sq, 7);
    lemma_dir_captures_iff_flips(own, opp, sq, -7);
    lemma_dir_captures_iff_flips(own, opp, sq, -9);
    lemma_or8_zero(
        dir_flips(own, opp, sq, 8),
        dir_flips(own, opp, sq, -8),
        dir_flips(own, opp, sq, 1),
        dir_flips(own, opp, sq, -1),
        dir_flips(own, opp, sq, 9),
        dir_flips(own, opp, sq, 7),
        dir_flips(own, opp, sq, -7),
        dir_flips(own, opp, sq, -9),
    );
}

proof fn lemma_run_mask_in_opp(opp: u64, pos: int, dir: int)
    ensures
        run_mask(opp, pos, dir) & opp == run_mask(opp, pos, dir),
    decreases (if dir > 0 {
        64 - pos
    } else {
        pos
    }),
{
    if step_ok(pos, dir) && opp & sq_bit(pos + dir) != 0 {
        let nxt = pos + dir;
        lemma_run_mask_in_opp(opp, nxt, dir);
        lemma_and_comm(opp, sq_bit(nxt));
        lemma_bit_in_mask(opp, nxt as u64);
        lemma_or_subset(sq_bit(nxt), run_mask(opp, nxt, dir), opp);
    } else {
        lemma_zero_mask(opp);
    }
}

/// Every flipped disc belongs to the opponent.
pub proof fn lemma_flips_in_opp(own: u64, opp: u64, sq: int)
    ensures
        flips_spec(own, opp, sq) & opp == flips_spec(own, opp, sq),
{
    lemma_zero_mask(opp);
    if 0 <= sq < 64 && (own | opp) & sq_bit(sq) == 0 {
        lemma_run_mask_in_opp(opp, sq, 8);
        lemma_run_mask_in_opp(opp, sq, -8);
        lemma_run_mask_in_opp(opp, sq, 1);
        lemma_run_mask_in_opp(opp, sq, -1);
        lemma_run_mask_in_opp(opp, sq, 9);
        lemma_run_mask_in_opp(opp, sq, 7);
        lemma_run_mask_in_opp(opp, sq, -7);
        lemma_run_mask_in_opp(opp, sq, -9);
        lemma_or_subset(dir_flips(own, opp, sq, 8), dir_flips(own, opp, sq, -8), opp);
        lemma_or_subset(
            dir_flips(own, opp, sq, 8) | dir_flips(own, opp, sq, -8),
            dir_flips(own, opp, sq, 1),
            opp,
        );
        lemma_or_subset(
            dir_flips(own, opp, sq, 8) | dir_flips(own, opp, sq, -8) | dir_flips(own, opp, sq, 1),
            dir_flips(own, opp, sq, -1),
            opp,
        );
        lemma_or_subset(
            dir_flips(own, opp, sq, 8) | dir_flips(own, opp, sq, -8) | dir_flips(own, opp, sq, 1)
                | dir_flips(own, opp, sq, -1),
            dir_flips(own, opp, sq, 9),
            opp,
        );
        lemma_or_subset(
            dir_flips(own, opp, sq, 8) | dir_flips(own, opp, sq, -8) | dir_flips(own, opp, sq, 1)
                | dir_flips(own, opp, sq, -1) | dir_flips(own, opp, sq, 9),
            dir_flips(own, opp, sq, 7),
            opp,
        );
        lemma_or_subset(
            dir_flips(own, opp, sq, 8) | dir_flips(own, opp, sq, -8) | dir_flips(own, opp, sq, 1)
                | dir_flips(own, opp, sq, -1) | dir_flips(own, opp, sq, 9) | dir_flips(
                own,
                opp,
                sq,
                7,
            ),
            dir_flips(own, opp, sq, -7),
            opp,
        );
        lemma_or_subset(
            dir_flips(own, opp, sq, 8) | dir_flips(own, opp, sq, -8) | dir_flips(own, opp, sq, 1)
                | dir_flips(own, opp, sq, -1) | dir_flips(own, opp, sq, 9) | dir_flips(
                own,
                opp,
                sq,
                7,
            ) | dir_flips(own, opp, sq, -7),
            dir_flips(own, opp, sq, -9),
            opp,
        );
    }
}

} // verus!
