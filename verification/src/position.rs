//! Positions: a board together with its hash and the number of pieces of each kind.

use vstd::prelude::*;
use crate::action::{is_move_at, move_cells, Action};
use crate::array::PieceArray;
use crate::board::Board;
use crate::counting::lemma_erase_kind;
use crate::grid::{cell_count, cell_index, in_grid};
use crate::mask::starts_before;
use crate::piece::Piece;
use crate::rules::{cells_of, count_value, differing, erase_grid, has_move, occupied};
use crate::score::{calc_score_erase, erase_score, SCORE_PERFECT};
use crate::square::Square;
use crate::zobrist::{
    delta_below, grid_key, key_below, lemma_delta_skip, lemma_delta_step, lemma_key_delta,
    value_at, zobrist_cell, ZOBRIST_TABLE,
};

verus! {

/// The most that `n` pieces of one kind can still score: the score of erasing them
/// all in one move, or nothing if they are fewer than two.
pub open spec fn kind_bound(n: int) -> int {
    if n >= 2 {
        erase_score(n)
    } else {
        0
    }
}

/// Whether no kind has exactly one piece on the grid.
pub open spec fn no_lone_kind(g: Seq<Seq<int>>) -> bool {
    count_value(g, 1) != 1 && count_value(g, 2) != 1 && count_value(g, 3) != 1 && count_value(g, 4)
        != 1 && count_value(g, 5) != 1
}

/// The bound on what can still be scored from the grid: each kind with two or more
/// pieces counts as if one move erased it, and the bonus for clearing the board is
/// added unless a kind has exactly one piece.
pub open spec fn gain_bound(g: Seq<Seq<int>>) -> int {
    kind_bound(count_value(g, 1)) + kind_bound(count_value(g, 2)) + kind_bound(count_value(g, 3))
        + kind_bound(count_value(g, 4)) + kind_bound(count_value(g, 5)) + if no_lone_kind(g) {
        200int
    } else {
        0
    }
}

/// Whether the first of the two moves comes first in the order of the moves: by kind,
/// and within a kind by the first cell.
pub open spec fn move_order(a: Action, b: Action) -> bool {
    a.kind().value() < b.kind().value() || (a.kind() == b.kind() && starts_before(
        a.cells(),
        b.cells(),
    ))
}

/// A position: a board, its Zobrist hash and the number of its pieces of each kind.
#[derive(Clone, Copy, Debug, PartialEq, Eq, Hash)]
pub struct Position {
    board: Board,
    key: u64,
    piece_counts: PieceArray<u8>,
}

impl Position {
    /// Whether the position is well-formed: its board is, its hash is the hash of the
    /// board, and the number held for each kind is the number of pieces of that kind.
    #[verifier::type_invariant]
    pub closed spec fn wf(self) -> bool {
        &&& self.board.wf()
        &&& self.key == grid_key(self.board@)
        &&& forall|i: int| 0 <= i < 5 ==> #[trigger] self.piece_counts.0[i] == count_value(self.board@, i + 1)
    }

    /// The grid of the board.
    pub closed spec fn grid(self) -> Seq<Seq<int>> {
        self.board@
    }

    /// The board.
    pub closed spec fn board_spec(self) -> Board {
        self.board
    }

    /// The hash that the position holds.
    pub closed spec fn key_value(self) -> u64 {
        self.key
    }

    /// The number of pieces of the kind numbered `v` that the position holds.
    pub closed spec fn held(self, v: int) -> int {
        self.piece_counts.0[v - 1] as int
    }

    /// What a well-formed position holds is what its board says: the hash is the XOR of
    /// the constants of the pieces on their squares, and the number held for each kind
    /// is the number of pieces of that kind.
    pub proof fn lemma_caches(self)
        requires
            self.wf(),
        ensures
            self.board_spec().wf(),
            self.grid() == self.board_spec()@,
            self.key_value() == grid_key(self.grid()),
            forall|v: int| 1 <= v <= 5 ==> #[trigger] self.held(v) == count_value(self.grid(), v),
    {
        assert forall|v: int| 1 <= v <= 5 implies #[trigger] self.held(v) == count_value(
            self.grid(),
            v,
        ) by {
            assert(self.piece_counts.0[v - 1] == count_value(self.board@, (v - 1) + 1));
        }
    }

    /// Two well-formed positions with the same grid are the same position: the hash
    /// and the numbers held do not depend on the moves that led to the board.
    pub proof fn lemma_same_grid(self, other: Position)
        requires
            self.wf(),
            other.wf(),
            self.grid() == other.grid(),
        ensures
            self.key_value() == other.key_value(),
            self == other,
    {
        self.board.lemma_ext(other.board);
        assert forall|i: int| 0 <= i < 5 implies self.piece_counts.0[i] == other.piece_counts.0[i] by {
            assert(self.piece_counts.0[i] == count_value(self.board@, i + 1));
            assert(other.piece_counts.0[i] == count_value(other.board@, i + 1));
        }
        assert(self.piece_counts.0 =~= other.piece_counts.0);
    }

    /// The bound is admissible: no game from a well-formed position on scores more
    /// than the bound of the position.
    pub proof fn lemma_bound_admissible(self, h: Seq<(int, int)>)
        requires
            self.wf(),
            crate::play::play_gain(self.grid(), h) is Some,
        ensures
            crate::play::play_gain(self.grid(), h)->0 <= gain_bound(self.grid()),
    {
        self.board.lemma_grid();
        crate::play::lemma_admissible(self.grid(), h);
    }

    /// The position of the board.
    pub fn new(board: Board) -> (res: Position)
        ensures
            res.wf(),
            res.board_spec() == board,
            res.grid() == board@,
    {
        proof {
            use_type_invariant(&board);
        }
        let mut key: u64 = 0;
        let mut k: usize = 0;
        while k < 48
            invariant
                0 <= k <= 48,
                board.wf(),
                key == key_below(board@, k as int),
            decreases 48 - k,
        {
            let sq = Square::from_index(k).unwrap();
            proof {
                sq.lemma_cell();
                assert(board.at(sq) == value_at(board@, k as int));
            }
            match board.get(sq) {
                Some(piece) => {
                    key = key ^ ZOBRIST_TABLE.board(piece, sq);
                },
                None => {
                    proof {
                        crate::zobrist::lemma_xor_zero(key);
                    }
                },
            }
            k = k + 1;
        }
        let mut counts: [u8; 5] = [0; 5];
        let pieces = Piece::all();
        let mut i: usize = 0;
        while i < 5
            invariant
                0 <= i <= 5,
                board.wf(),
                pieces.len() == 5,
                forall|j: int| 0 <= j < 5 ==> (#[trigger] pieces[j]).value() == j + 1,
                forall|j: int| 0 <= j < i ==> #[trigger] counts[j] == count_value(board@, j + 1),
            decreases 5 - i,
        {
            let n: u32 = board.piece_count(pieces[i]);
            counts[i] = n as u8;
            i = i + 1;
        }
        Position { board, key, piece_counts: PieceArray::new(counts) }
    }

    /// The board.
    pub fn board(&self) -> (res: &Board)
        ensures
            *res == self.board_spec(),
            res@ == self.grid(),
            res.wf(),
    {
        proof {
            use_type_invariant(self);
        }
        &self.board
    }

    /// The Zobrist hash of the board.
    pub fn key(&self) -> (res: u64)
        ensures
            res == grid_key(self.grid()),
    {
        proof {
            use_type_invariant(self);
        }
        self.key
    }

    /// The number of pieces of the kind `piece`.
    pub fn piece_count(&self, piece: Piece) -> (res: u8)
        ensures
            res == count_value(self.grid(), piece.value()),
            res <= 48,
    {
        proof {
            use_type_invariant(self);
            use_type_invariant(&piece);
            Piece::lemma_value_range(piece);
            crate::grid::lemma_count_range(cells_of(self.board@, piece.value()));
            assert(self.piece_counts.0[piece.value() - 1] == count_value(
                self.board@,
                (piece.value() - 1) + 1,
            ));
        }
        *self.piece_counts.get(piece)
    }

    /// Whether a move can be made.
    pub fn has_action(&self) -> (res: bool)
        ensures
            res == has_move(self.grid()),
    {
        self.board.has_action()
    }

    /// The moves that can be made, in their order: by kind, and within a kind by the
    /// first cell.
    pub fn actions(&self) -> (res: Vec<Action>)
        ensures
            forall|i: int| 0 <= i < res.len() ==> (#[trigger] res[i]).wf() && res[i].is_move_of(self.grid()),
            forall|a: (int, int)|
                is_move_at(self.grid(), a) ==> exists|i: int|
                    0 <= i < res.len() && #[trigger] res[i].cells().contains(a),
            forall|i: int, j: int|
                0 <= i < j < res.len() ==> move_order(#[trigger] res[i], #[trigger] res[j]),
    {
        let ghost g = self.grid();
        let comps = self.board.piece_components();
        let mut res: Vec<Action> = Vec::new();
        let mut n: usize = 0;
        while n < comps.len()
            invariant
                0 <= n <= comps.len(),
                g == self.board@,
                forall|k: int| 0 <= k < comps.len() ==> (#[trigger] comps[k]).0.wf() && comps[k].1.wf(),
                forall|k: int, a: (int, int)|
                    0 <= k < comps.len() && #[trigger] comps[k].1@.contains(a) ==> comps[k].1@
                        == crate::grid::component(cells_of(g, comps[k].0.value()), a),
                forall|k: int, j: int|
                    0 <= k < j < comps.len() ==> (#[trigger] comps[k]).0.value() < (
                    #[trigger] comps[j]).0.value() || (comps[k].0 == comps[j].0 && starts_before(
                        comps[k].1@,
                        comps[j].1@,
                    )),
                forall|i: int| 0 <= i < res.len() ==> (#[trigger] res[i]).wf() && res[i].is_move_of(g),
                forall|k: int, a: (int, int)|
                    0 <= k < n && #[trigger] comps[k].1@.contains(a) && cell_count(comps[k].1@) >= 2
                        ==> exists|i: int| 0 <= i < res.len() && #[trigger] res[i].cells().contains(a),
                forall|i: int, j: int|
                    0 <= i < j < res.len() ==> move_order(#[trigger] res[i], #[trigger] res[j]),
                forall|i: int, j: int|
                    0 <= i < res.len() && n <= j < comps.len() ==> (#[trigger] res[i]).kind().value() < (
                    #[trigger] comps[j]).0.value() || (res[i].kind() == comps[j].0 && starts_before(
                        res[i].cells(),
                        comps[j].1@,
                    )),
            decreases comps.len() - n,
        {
            let (piece, mb) = comps[n];
            if mb.square_count() >= 2 {
                let action = Action::new(piece, mb);
                let ghost before = res@;
                res.push(action);
                proof {
                    let s = cells_of(g, piece.value());
                    assert(action.is_move_of(g)) by {
                        crate::grid::lemma_count_zero(mb@);
                        let (c0, r0) = choose|c: int, r: int|
                            0 <= c < 8 && 0 <= r < 6 && #[trigger] mb@.contains((c, r));
                        let a = (c0, r0);
                        assert(comps[n as int].1@.contains(a));
                        crate::grid::lemma_connected_in(s, a, a);
                        assert(action.cells().contains(a));
                    }
                    assert forall|k: int, a: (int, int)|
                        0 <= k < n + 1 && #[trigger] comps[k].1@.contains(a) && cell_count(
                            comps[k].1@,
                        ) >= 2 implies exists|i: int|
                        0 <= i < res.len() && #[trigger] res[i].cells().contains(a) by {
                        if k < n {
                            let i = choose|i: int|
                                0 <= i < before.len() && #[trigger] before[i].cells().contains(a);
                            assert(res[i] == before[i]);
                        } else {
                            assert(res[res.len() - 1].cells().contains(a));
                        }
                    }
                    assert forall|i: int, j: int| 0 <= i < j < res.len() implies move_order(
                        #[trigger] res[i],
                        #[trigger] res[j],
                    ) by {
                        if j < res.len() - 1 {
                            assert(res[i] == before[i] && res[j] == before[j]);
                        } else {
                            assert(res[i] == before[i]);
                            assert(before[i].kind().value() < comps[n as int].0.value() || (
                            before[i].kind() == comps[n as int].0 && starts_before(
                                before[i].cells(),
                                comps[n as int].1@,
                            )));
                        }
                    }
                    assert forall|i: int, j: int|
                        0 <= i < res.len() && n + 1 <= j < comps.len() implies (
                    #[trigger] res[i]).kind().value() < (#[trigger] comps[j]).0.value() || (
                    res[i].kind() == comps[j].0 && starts_before(res[i].cells(), comps[j].1@)) by {
                        if i < res.len() - 1 {
                            assert(res[i] == before[i]);
                        } else {
                            assert(comps[n as int].0.value() < comps[j].0.value() || (
                            comps[n as int].0 == comps[j].0 && starts_before(
                                comps[n as int].1@,
                                comps[j].1@,
                            )));
                        }
                    }
                    assert forall|i: int| 0 <= i < res.len() implies (#[trigger] res[i]).wf()
                        && res[i].is_move_of(g) by {
                        if i < res.len() - 1 {
                            assert(res[i] == before[i]);
                        }
                    }
                }
            }
            n = n + 1;
        }
        proof {
            assert forall|a: (int, int)| is_move_at(g, a) implies exists|i: int|
                0 <= i < res.len() && #[trigger] res[i].cells().contains(a) by {
                assert(occupied(g).contains(a));
                let k = choose|k: int| 0 <= k < comps.len() && #[trigger] comps[k].1@.contains(a);
                let s = cells_of(g, comps[k].0.value());
                crate::grid::lemma_connected_in(s, a, a);
                assert(comps[k].1@ == move_cells(g, a));
            }
        }
        res
    }

    /// The position after the move `action`, whose cells hold its kind on the board.
    pub fn do_action(&self, action: &Action) -> (res: Position)
        requires
            action.fits(self.grid()),
        ensures
            res.wf(),
            res.grid() == erase_grid(self.grid(), action.cells()),
    {
        proof {
            use_type_invariant(self);
            use_type_invariant(action);
        }
        let board = self.board.erase(action.mask());
        let key = self.key_after(&board);
        let counts = self.counts_after(action, Ghost(board@));
        Position { board, key, piece_counts: counts }
    }

    /// The hash of `board`, from the hash of the position and the squares on which the
    /// two boards differ.
    fn key_after(&self, board: &Board) -> (key: u64)
        ensures
            key == grid_key(board@),
    {
        proof {
            use_type_invariant(self);
            use_type_invariant(board);
        }
        let ghost g = self.board@;
        let ghost h = board@;
        let diff = self.board.xor_mask(board);
        let sqs = diff.squares();
        let mut key: u64 = self.key;
        let ghost mut b: int = 0;
        let mut i: usize = 0;
        proof {
            crate::zobrist::lemma_xor_zero(key);
        }
        while i < sqs.len()
            invariant
                0 <= i <= sqs.len(),
                0 <= b <= 48,
                self.board.wf(),
                board.wf(),
                g == self.board@,
                h == board@,
                forall|j: int| 0 <= j < sqs.len() ==> (#[trigger] sqs[j]).wf(),
                forall|j: int, k: int| 0 <= j < k < sqs.len() ==> sqs[j].value() < sqs[k].value(),
                forall|p: (int, int)|
                    differing(g, h).contains(p) ==> exists|j: int|
                        0 <= j < sqs.len() && (#[trigger] sqs[j]).cell() == p,
                i < sqs.len() ==> b <= sqs[i as int].index(),
                i > 0 ==> b == sqs[i - 1].index() + 1,
                i == 0 ==> b == 0,
                key == self.key ^ delta_below(g, h, b),
            decreases sqs.len() - i,
        {
            let sq = sqs[i];
            let ghost n = sq.index();
            proof {
                sq.lemma_cell();
                Position::lemma_no_diff_between(g, h, sqs@, i as int, b, n);
                lemma_delta_skip(g, h, b, n);
                lemma_delta_step(self.key, g, h, n);
                assert(self.board.at(sq) == value_at(g, n));
                assert(board.at(sq) == value_at(h, n));
            }
            let y: u64 = Position::cell_key(&self.board, sq);
            let z: u64 = Position::cell_key(board, sq);
            key = key ^ y ^ z;
            proof {
                b = n + 1;
                if i + 1 < sqs.len() {
                    assert(sqs[i as int].value() < sqs[i + 1].value());
                }
            }
            i = i + 1;
        }
        proof {
            Position::lemma_no_diff_between(g, h, sqs@, sqs.len() as int, b, 48);
            lemma_delta_skip(g, h, b, 48);
            lemma_key_delta(g, h, 48);
        }
        key
    }

    /// The constant of what the board holds on the square `sq`.
    fn cell_key(board: &Board, sq: Square) -> (res: u64)
        ensures
            res == zobrist_cell(board.at(sq), sq.index()),
    {
        match board.get(sq) {
            Some(piece) => ZOBRIST_TABLE.board(piece, sq),
            None => 0,
        }
    }

    /// The numbers of the pieces of each kind after the move `action`, which leads to
    /// the grid `h`.
    fn counts_after(&self, action: &Action, Ghost(h): Ghost<Seq<Seq<int>>>) -> (res: PieceArray<u8>)
        requires
            action.fits(self.grid()),
            h == erase_grid(self.grid(), action.cells()),
        ensures
            forall|j: int| 0 <= j < 5 ==> #[trigger] res.0[j] == count_value(h, j + 1),
    {
        proof {
            use_type_invariant(self);
            use_type_invariant(action);
        }
        let ghost g = self.board@;
        let mut counts: [u8; 5] = *self.piece_counts.as_array();
        let idx: usize = action.piece().to_index();
        let erased: u32 = action.square_count();
        proof {
            let p = action.kind().value();
            action.lemma_wf();
            Piece::lemma_value_range(action.kind());
            assert forall|v: int| 1 <= v <= 5 implies count_value(h, v) == if v == p {
                count_value(g, p) - cell_count(action.cells())
            } else {
                count_value(g, v)
            } by {
                lemma_erase_kind(g, action.cells(), p, v);
            }
            assert(counts[idx as int] == count_value(g, (p - 1) + 1));
            crate::grid::lemma_count_range(cells_of(h, p));
            assert(count_value(h, p) == count_value(g, p) - cell_count(action.cells()));
            assert(erased == cell_count(action.cells()));
        }
        counts[idx] = counts[idx] - (erased as u8);
        proof {
            assert forall|j: int| 0 <= j < 5 implies #[trigger] counts[j] == count_value(h, j + 1) by {
                assert(self.piece_counts.0[j] == count_value(g, j + 1));
            }
        }
        PieceArray::new(counts)
    }

    /// Between two squares that follow each other in the list of the squares on which
    /// two grids differ, the grids hold the same.
    proof fn lemma_no_diff_between(
        g: Seq<Seq<int>>,
        h: Seq<Seq<int>>,
        sqs: Seq<Square>,
        i: int,
        b: int,
        n: int,
    )
        requires
            0 <= i <= sqs.len(),
            0 <= b <= n <= 48,
            forall|j: int| 0 <= j < sqs.len() ==> (#[trigger] sqs[j]).wf(),
            forall|j: int, k: int| 0 <= j < k < sqs.len() ==> sqs[j].value() < sqs[k].value(),
            forall|p: (int, int)|
                differing(g, h).contains(p) ==> exists|j: int|
                    0 <= j < sqs.len() && (#[trigger] sqs[j]).cell() == p,
            i < sqs.len() ==> n <= sqs[i].index(),
            i > 0 ==> b == sqs[i - 1].index() + 1,
            i == 0 ==> b == 0,
        ensures
            forall|k: int| b <= k < n ==> #[trigger] value_at(g, k) == value_at(h, k),
    {
        assert forall|k: int| b <= k < n implies #[trigger] value_at(g, k) == value_at(h, k) by {
            let p = (k / 6, k % 6);
            if value_at(g, k) != value_at(h, k) {
                assert(in_grid(p));
                assert(differing(g, h).contains(p));
                let j = choose|j: int| 0 <= j < sqs.len() && (#[trigger] sqs[j]).cell() == p;
                sqs[j].lemma_cell();
                assert(sqs[j].index() == k);
                if j < i {
                    if j < i - 1 {
                        assert(sqs[j].value() < sqs[i - 1].value());
                    }
                } else if j > i {
                    assert(sqs[i].value() < sqs[j].value());
                }
            }
        }
    }

    /// A bound on what can still be scored from the position, from the numbers of the
    /// pieces alone.
    pub fn gain_upper_bound(&self) -> (res: u32)
        ensures
            res == gain_bound(self.grid()),
            res <= 11245,
    {
        proof {
            use_type_invariant(self);
        }
        let pieces = Piece::all();
        let mut res: u32 = 0;
        let mut perfect = true;
        let mut i: usize = 0;
        while i < 5
            invariant
                0 <= i <= 5,
                self.wf(),
                pieces.len() == 5,
                forall|j: int| 0 <= j < 5 ==> (#[trigger] pieces[j]).value() == j + 1,
                res == bound_below(self.grid(), i as int),
                perfect == no_lone_below(self.grid(), i as int),
                res <= 2209 * i,
            decreases 5 - i,
        {
            let count: u8 = self.piece_count(pieces[i]);
            if count == 1 {
                perfect = false;
            } else if count >= 2 {
                proof {
                    assert(erase_score(count as int) <= 2209) by (nonlinear_arith)
                        requires
                            2 <= count <= 48,
                    ;
                }
                res = res + calc_score_erase(count as u32);
            }
            i = i + 1;
        }
        proof {
            reveal_with_fuel(bound_below, 6);
            reveal_with_fuel(no_lone_below, 6);
        }
        if perfect {
            res = res + SCORE_PERFECT;
        }
        res
    }
}

/// The part of the bound that the first `n` kinds give.
pub open spec fn bound_below(g: Seq<Seq<int>>, n: int) -> int
    decreases n,
{
    if n <= 0 {
        0
    } else {
        bound_below(g, n - 1) + kind_bound(count_value(g, n))
    }
}

/// Whether none of the first `n` kinds has exactly one piece.
pub open spec fn no_lone_below(g: Seq<Seq<int>>, n: int) -> bool
    decreases n,
{
    if n <= 0 {
        true
    } else {
        no_lone_below(g, n - 1) && count_value(g, n) != 1
    }
}

} // verus!
