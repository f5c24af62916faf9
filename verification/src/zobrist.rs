//! Zobrist hashing: one 64-bit constant for each pair of a piece kind and a square.
//!
//! The constants are the values of a fixed mixing function, seeded with 2024, so that
//! they are the same in every run.

use vstd::prelude::*;
use crate::piece::Piece;
use crate::square::Square;

verus! {

/// The seed of the table.
pub const ZOBRIST_SEED: u64 = 2024;

/// The step between the inputs of the mixing function.
pub const ZOBRIST_STEP: u64 = 0x9e37_79b9_7f4a_7c15;

/// The mixing function: it scatters the bits of `x`.
pub open spec fn mix64(x: u64) -> u64 {
    let a = (x ^ (x >> 30)).wrapping_mul(0xbf58_476d_1ce4_e5b9);
    let b = (a ^ (a >> 27)).wrapping_mul(0x94d0_49bb_1331_11eb);
    b ^ (b >> 31)
}

/// The constant for the kind numbered `v` (1 to 5) on the square of index `k` (0 to 47).
#[verifier::opaque]
pub open spec fn zobrist_of(v: int, k: int) -> u64 {
    mix64(ZOBRIST_SEED.wrapping_add(ZOBRIST_STEP.wrapping_mul((48 * (v - 1) + k + 1) as u64)))
}

/// The constant for an occupied or empty cell: 0 for the value 0, else the constant of
/// the kind on the square.
pub open spec fn zobrist_cell(v: int, k: int) -> u64 {
    if v == 0 {
        0
    } else {
        zobrist_of(v, k)
    }
}

/// What the grid holds on the square of index `k`.
pub open spec fn value_at(g: Seq<Seq<int>>, k: int) -> int {
    g[k / 6][k % 6]
}

/// The hash of the pieces on the first `n` squares of the grid: the XOR of their
/// constants.
pub open spec fn key_below(g: Seq<Seq<int>>, n: int) -> u64
    decreases n,
{
    if n <= 0 {
        0
    } else {
        key_below(g, n - 1) ^ zobrist_cell(value_at(g, n - 1), n - 1)
    }
}

/// The hash of a grid: the XOR of the constants of its pieces on their squares.
pub open spec fn grid_key(g: Seq<Seq<int>>) -> u64 {
    key_below(g, 48)
}

/// The XOR, over the first `n` squares, of the constants of what the two grids hold
/// there.
pub open spec fn delta_below(g: Seq<Seq<int>>, h: Seq<Seq<int>>, n: int) -> u64
    decreases n,
{
    if n <= 0 {
        0
    } else {
        delta_below(g, h, n - 1) ^ (zobrist_cell(value_at(g, n - 1), n - 1) ^ zobrist_cell(
            value_at(h, n - 1),
            n - 1,
        ))
    }
}

/// XOR can be regrouped, 0 changes nothing, and a number cancels itself.
proof fn bv_xor_laws(k: u64, d: u64, y: u64, z: u64)
    by (bit_vector)
    ensures
        (k ^ d) ^ z == (k ^ y) ^ (d ^ (y ^ z)),
        k ^ 0 == k,
        0 ^ k == k,
        k ^ k == 0,
        (k ^ d) ^ (y ^ z) == ((k ^ d) ^ y) ^ z,
{
}

/// The hash of one grid is the hash of another, XORed with the constants of what the
/// two hold.
pub proof fn lemma_key_delta(g: Seq<Seq<int>>, h: Seq<Seq<int>>, n: int)
    requires
        0 <= n,
    ensures
        key_below(h, n) == key_below(g, n) ^ delta_below(g, h, n),
    decreases n,
{
    if n > 0 {
        lemma_key_delta(g, h, n - 1);
        let y = zobrist_cell(value_at(g, n - 1), n - 1);
        let z = zobrist_cell(value_at(h, n - 1), n - 1);
        bv_xor_laws(key_below(g, n - 1), delta_below(g, h, n - 1), y, z);
    } else {
        bv_xor_laws(0, 0, 0, 0);
    }
}

/// Squares on which the two grids hold the same add nothing to the XOR of what they
/// hold.
pub proof fn lemma_delta_skip(g: Seq<Seq<int>>, h: Seq<Seq<int>>, m: int, n: int)
    requires
        0 <= m <= n,
        forall|k: int| m <= k < n ==> #[trigger] value_at(g, k) == value_at(h, k),
    ensures
        delta_below(g, h, n) == delta_below(g, h, m),
    decreases n,
{
    if n > m {
        lemma_delta_skip(g, h, m, n - 1);
        let y = zobrist_cell(value_at(g, n - 1), n - 1);
        assert(value_at(g, n - 1) == value_at(h, n - 1));
        bv_xor_laws(y, 0, 0, 0);
        bv_xor_laws(delta_below(g, h, n - 1), 0, 0, 0);
    }
}

/// One more square: the XOR of what the two grids hold on the first `n + 1` squares.
pub proof fn lemma_delta_step(acc: u64, g: Seq<Seq<int>>, h: Seq<Seq<int>>, n: int)
    requires
        0 <= n,
    ensures
        (acc ^ delta_below(g, h, n)) ^ zobrist_cell(value_at(g, n), n) ^ zobrist_cell(
            value_at(h, n),
            n,
        ) == acc ^ delta_below(g, h, n + 1),
{
    let y = zobrist_cell(value_at(g, n), n);
    let z = zobrist_cell(value_at(h, n), n);
    let d = delta_below(g, h, n);
    assert(delta_below(g, h, n + 1) == d ^ (y ^ z));
    bv_xor_assoc(acc, d, y, z);
}

/// XOR can be regrouped.
proof fn bv_xor_assoc(k: u64, d: u64, y: u64, z: u64)
    by (bit_vector)
    ensures
        ((k ^ d) ^ y) ^ z == k ^ (d ^ (y ^ z)),
{
}

/// XOR with the constant of an empty cell changes nothing.
pub proof fn lemma_xor_zero(k: u64)
    ensures
        k ^ 0 == k,
        k ^ zobrist_cell(0, 0) == k,
{
    bv_xor_laws(k, 0, 0, 0);
}

/// The mixing function.
fn mix(x: u64) -> (res: u64)
    ensures
        res == mix64(x),
{
    let a: u64 = (x ^ (x >> 30)).wrapping_mul(0xbf58_476d_1ce4_e5b9);
    let b: u64 = (a ^ (a >> 27)).wrapping_mul(0x94d0_49bb_1331_11eb);
    b ^ (b >> 31)
}

/// The table of the constants.
#[derive(Clone, Copy, Debug)]
pub struct ZobristTable;

impl ZobristTable {
    /// The constant for the kind `piece` on the square `sq`.
    pub fn board(&self, piece: Piece, sq: Square) -> (res: u64)
        ensures
            res == zobrist_of(piece.value(), sq.index()),
    {
        proof {
            reveal(zobrist_of);
        }
        let v: u64 = piece.to_inner() as u64;
        let k: u64 = sq.to_index() as u64;
        let idx: u64 = 48 * (v - 1) + k + 1;
        mix(ZOBRIST_SEED.wrapping_add(ZOBRIST_STEP.wrapping_mul(idx)))
    }
}

/// The table of the constants.
pub const ZOBRIST_TABLE: ZobristTable = ZobristTable;

} // verus!
