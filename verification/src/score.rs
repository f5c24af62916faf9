//! Scores.

use vstd::prelude::*;

verus! {

/// A score. No game scores more than 2409: one move that erases all 48 pieces and
/// clears the board.
pub type Score = u32;

/// The bonus for clearing the whole board.
pub const SCORE_PERFECT: u32 = 200;

/// The score of a move that erases `n` pieces.
pub open spec fn erase_score(n: int) -> int {
    (n - 1) * (n - 1)
}

/// The score of a move that erases `n` pieces, which are at least 2.
pub fn calc_score_erase(n: u32) -> (res: u32)
    requires
        2 <= n <= 0x10000,
    ensures
        res == erase_score(n as int),
{
    let m: u32 = n - 1;
    assert(m * m <= 0xffff * 0xffff) by (nonlinear_arith)
        requires
            0 <= m <= 0xffff,
    ;
    m * m
}

} // verus!
