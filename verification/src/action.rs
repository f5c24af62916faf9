//! Moves and the record of the moves made.

use vstd::prelude::*;
use arrayvec::ArrayVec;
use crate::board::Board;
use crate::grid::{cell_count, component, in_grid, is_least};
use crate::mask::MaskBoard;
use crate::piece::Piece;
use crate::rules::cells_of;
use crate::score::{calc_score_erase, erase_score};
use crate::square::Square;

verus! {

/// The cells that the move on the cell `a` of the grid `g` erases: the cells that
/// hold the kind of `a` and are connected to `a` through cells of that kind.
pub open spec fn move_cells(g: Seq<Seq<int>>, a: (int, int)) -> Set<(int, int)> {
    component(cells_of(g, g[a.0][a.1]), a)
}

/// Whether a move can be made on the cell `a` of the grid `g`: the cell holds a
/// piece, and at least one more piece of its kind is connected to it.
pub open spec fn is_move_at(g: Seq<Seq<int>>, a: (int, int)) -> bool {
    in_grid(a) && g[a.0][a.1] != 0 && cell_count(move_cells(g, a)) >= 2
}

/// Why no move can be made on a square.
#[derive(Clone, Copy, Debug, PartialEq, Eq)]
pub enum ActionError {
    /// The square holds no piece.
    NoPiece,
    /// No other piece of the same kind is connected to the piece on the square.
    Isolated,
}

/// A move: a kind and the cells to erase, which are at least two.
#[derive(Clone, Copy, Debug, PartialEq, Eq)]
pub struct Action {
    piece: Piece,
    mb: MaskBoard,
}

impl Action {
    /// Whether the move is well-formed: its kind and its mask are, and the mask holds at
    /// least two cells.
    #[verifier::type_invariant]
    pub closed spec fn wf(self) -> bool {
        self.piece.wf() && self.mb.wf() && 2 <= self.mb.count()
    }

    /// The kind of the pieces that the move erases.
    pub closed spec fn kind(self) -> Piece {
        self.piece
    }

    /// The cells that the move erases.
    pub closed spec fn cells(self) -> Set<(int, int)> {
        self.mb@
    }

    /// Whether the move is a move of the grid `g`: its cells hold its kind and are a
    /// whole connected component of the cells of that kind.
    pub open spec fn is_move_of(self, g: Seq<Seq<int>>) -> bool {
        exists|a: (int, int)|
            #[trigger] self.cells().contains(a) && g[a.0][a.1] == self.kind().value()
                && self.cells() == move_cells(g, a)
    }

    /// Whether every cell of the move holds the kind of the move on the grid `g`.
    pub open spec fn fits(self, g: Seq<Seq<int>>) -> bool {
        forall|a: (int, int)| self.cells().contains(a) ==> cells_of(g, self.kind().value()).contains(a)
    }

    /// The cells of a move of the grid hold the kind of the move, and the move is the
    /// move on each of its cells.
    pub proof fn lemma_move_of(self, g: Seq<Seq<int>>)
        requires
            self.wf(),
            self.is_move_of(g),
        ensures
            self.fits(g),
            forall|a: (int, int)|
                #[trigger] self.cells().contains(a) ==> g[a.0][a.1] == self.kind().value()
                    && self.cells() == move_cells(g, a) && is_move_at(g, a),
    {
        let a0 = choose|a: (int, int)|
            #[trigger] self.cells().contains(a) && g[a.0][a.1] == self.kind().value()
                && self.cells() == move_cells(g, a);
        let s = cells_of(g, self.kind().value());
        Piece::lemma_value_range(self.kind());
        assert(self.cells() == component(s, a0));
        assert forall|a: (int, int)| #[trigger] self.cells().contains(a) implies g[a.0][a.1]
            == self.kind().value() && self.cells() == move_cells(g, a) && is_move_at(g, a) by {
            assert(crate::grid::connected(s, a0, a));
            crate::grid::lemma_connected_in(s, a0, a);
            crate::grid::lemma_component_same(s, a0, a);
            assert(s.contains(a));
            assert(g[a.0][a.1] == self.kind().value());
            assert(move_cells(g, a) == component(s, a));
        }
        assert forall|a: (int, int)| self.cells().contains(a) implies s.contains(a) by {
            assert(g[a.0][a.1] == self.kind().value() && is_move_at(g, a));
        }
    }

    /// A well-formed move erases 2 to 48 cells of a well-formed kind.
    pub proof fn lemma_wf(self)
        requires
            self.wf(),
        ensures
            self.kind().wf(),
            2 <= cell_count(self.cells()) <= 48,
    {
        crate::grid::lemma_count_range(self.mb@);
    }

    /// The move that erases the cells of `mb`, which are at least two, of the kind
    /// `piece`.
    pub fn new(piece: Piece, mb: MaskBoard) -> (res: Action)
        requires
            mb.count() >= 2,
        ensures
            res.wf(),
            res.kind() == piece,
            res.cells() == mb@,
    {
        proof {
            use_type_invariant(&piece);
            use_type_invariant(&mb);
        }
        Action { piece, mb }
    }

    /// The move on the square `sq` of the board, if there is one.
    pub fn from_board_square(board: &Board, sq: Square) -> (res: Result<Action, ActionError>)
        ensures
            res is Ok <==> is_move_at(board@, sq.cell()),
            res is Ok ==> res->Ok_0.wf() && res->Ok_0.kind().value() == board.at(sq)
                && res->Ok_0.cells() == move_cells(board@, sq.cell()) && res->Ok_0.is_move_of(
                board@,
            ),
            res == Err::<Action, ActionError>(ActionError::NoPiece) <==> board.at(sq) == 0,
    {
        proof {
            use_type_invariant(&sq);
            sq.lemma_cell();
        }
        match board.get(sq) {
            None => Err(ActionError::NoPiece),
            Some(piece) => {
                let all = board.piece_mask(piece);
                let mb = all.flood_fill(sq);
                if mb.square_count() >= 2 {
                    let action = Action::new(piece, mb);
                    proof {
                        crate::grid::lemma_connected_refl(all@, sq.cell());
                        assert(action.cells().contains(sq.cell()));
                    }
                    Ok(action)
                } else {
                    Err(ActionError::Isolated)
                }
            },
        }
    }

    /// The move on the square `sq` of the board, on which a move can be made.
    pub fn from_board_square_unchecked(board: &Board, sq: Square) -> (res: Action)
        requires
            is_move_at(board@, sq.cell()),
        ensures
            res.wf(),
            res.kind().value() == board.at(sq),
            res.cells() == move_cells(board@, sq.cell()),
            res.is_move_of(board@),
    {
        proof {
            use_type_invariant(&sq);
            sq.lemma_cell();
        }
        let piece = board.get(sq).unwrap();
        let all = board.piece_mask(piece);
        let mb = all.flood_fill(sq);
        let action = Action::new(piece, mb);
        proof {
            crate::grid::lemma_connected_refl(all@, sq.cell());
            assert(action.cells().contains(sq.cell()));
        }
        action
    }

    /// The kind of the pieces that the move erases.
    pub fn piece(&self) -> (res: Piece)
        ensures
            res == self.kind(),
            res.wf(),
    {
        proof {
            use_type_invariant(self);
        }
        self.piece
    }

    /// The mask of the cells that the move erases.
    pub fn mask(&self) -> (res: &MaskBoard)
        ensures
            res@ == self.cells(),
            res.wf(),
    {
        proof {
            use_type_invariant(self);
        }
        &self.mb
    }

    /// The number of pieces that the move erases.
    pub fn square_count(&self) -> (res: u32)
        ensures
            res == cell_count(self.cells()),
            2 <= res <= 48,
    {
        proof {
            use_type_invariant(self);
        }
        self.mb.square_count()
    }

    /// The first of the squares that the move erases.
    pub fn least_square(&self) -> (res: Square)
        ensures
            res.wf(),
            is_least(self.cells(), res.cell()),
    {
        proof {
            use_type_invariant(self);
            crate::grid::lemma_count_zero(self.mb@);
        }
        self.mb.least_square_unchecked()
    }

    /// The score of the move, without the bonus for clearing the board.
    pub fn gain(&self) -> (res: u32)
        ensures
            res == erase_score(cell_count(self.cells())),
    {
        calc_score_erase(self.square_count())
    }
}

/// The largest number of moves of a game: each move erases at least 2 of 48 pieces.
pub const HISTORY_CAP: usize = 24;

/// `arrayvec::ArrayVec`: a vector of at most `CAP` items that lies in an array.
#[verifier::external_type_specification]
#[verifier::external_body]
#[verifier::reject_recursive_types(T)]
pub struct ExArrayVec<T, const CAP: usize>(ArrayVec<T, CAP>);

/// The numbers that the vector holds, first pushed first.
pub uninterp spec fn stored(v: ArrayVec<u8, 24>) -> Seq<u8>;

/// `ArrayVec::new`: a vector that holds nothing.
#[verifier::external_body]
fn stored_new() -> (res: ArrayVec<u8, 24>)
    ensures
        stored(res) == Seq::<u8>::empty(),
{
    ArrayVec::new()
}

/// `ArrayVec::push`: puts `x` behind what a vector that is not full holds.
#[verifier::external_body]
fn stored_push(v: &mut ArrayVec<u8, 24>, x: u8)
    requires
        stored(*old(v)).len() < 24,
    ensures
        stored(*final(v)) == stored(*old(v)).push(x),
    no_unwind
{
    v.push(x)
}

/// `ArrayVec::pop`: takes the last number out and returns it; a vector that holds
/// nothing is left as it is.
#[verifier::external_body]
fn stored_pop(v: &mut ArrayVec<u8, 24>) -> (res: Option<u8>)
    ensures
        stored(*old(v)).len() == 0 ==> res is None && stored(*final(v)) == stored(*old(v)),
        stored(*old(v)).len() > 0 ==> res == Some(stored(*old(v)).last()) && stored(*final(v))
            == stored(*old(v)).drop_last(),
    no_unwind
{
    v.pop()
}

/// `ArrayVec::as_slice`: the numbers that the vector holds, as a slice.
#[verifier::external_body]
fn stored_slice(v: &ArrayVec<u8, 24>) -> (res: &[u8])
    ensures
        res@ == stored(*v),
{
    v.as_slice()
}

/// `ArrayVec::clone`: a vector that holds the same numbers.
#[verifier::external_body]
fn stored_clone(v: &ArrayVec<u8, 24>) -> (res: ArrayVec<u8, 24>)
    ensures
        stored(res) == stored(*v),
{
    v.clone()
}

/// Whether each number is the number of a square.
pub open spec fn all_squares(items: Seq<u8>) -> bool {
    forall|i: int| 0 <= i < items.len() ==> 1 <= #[trigger] items[i] <= 48
}

/// The record of the moves made: for each move the first of the squares that it
/// erased, at most 24 of them, first move first.
#[derive(Debug, PartialEq, Eq)]
pub struct ActionHistory {
    items: ArrayVec<u8, 24>,
}

impl View for ActionHistory {
    type V = Seq<int>;

    /// The numbers of the squares, 1 to 48 each, first move first.
    closed spec fn view(&self) -> Seq<int> {
        stored(self.items).map_values(|x: u8| x as int)
    }
}

impl ActionHistory {
    /// The largest number of moves that a record holds.
    pub const CAPACITY: usize = 24;

    /// Whether the record is well-formed: it holds at most 24 numbers, each the number
    /// of a square.
    #[verifier::type_invariant]
    pub closed spec fn wf(self) -> bool {
        stored(self.items).len() <= 24 && all_squares(stored(self.items))
    }

    /// A well-formed record holds at most 24 numbers of squares.
    pub proof fn lemma_wf(self)
        requires
            self.wf(),
        ensures
            self@.len() <= 24,
            forall|i: int| 0 <= i < self@.len() ==> 1 <= #[trigger] self@[i] <= 48,
    {
    }

    /// The record of no move.
    pub fn new() -> (res: ActionHistory)
        ensures
            res.wf(),
            res@ == Seq::<int>::empty(),
    {
        let items = stored_new();
        proof {
            assert(stored(items).map_values(|x: u8| x as int) =~= Seq::<int>::empty());
        }
        ActionHistory { items }
    }

    /// The squares of the record, first move first.
    pub fn as_slice(&self) -> (res: Vec<Square>)
        ensures
            res.len() == self@.len(),
            forall|i: int| 0 <= i < res.len() ==> (#[trigger] res[i]).wf() && res[i].value() == self@[i],
    {
        proof {
            use_type_invariant(self);
        }
        let items = stored_slice(&self.items);
        let mut res: Vec<Square> = Vec::new();
        let mut i: usize = 0;
        while i < items.len()
            invariant
                0 <= i <= items.len(),
                items@ == stored(self.items),
                all_squares(items@),
                res.len() == i,
                forall|k: int|
                    0 <= k < i ==> (#[trigger] res[k]).wf() && res[k].value() == items@[k],
            decreases items.len() - i,
        {
            res.push(Square::from_inner(items[i]).unwrap());
            i = i + 1;
        }
        res
    }

    /// The squares of the record, first move first.
    pub fn iter(&self) -> (res: Vec<Square>)
        ensures
            res.len() == self@.len(),
            forall|i: int| 0 <= i < res.len() ==> (#[trigger] res[i]).wf() && res[i].value() == self@[i],
    {
        self.as_slice()
    }

    /// The number of moves of the record.
    pub fn len(&self) -> (res: usize)
        ensures
            res == self@.len(),
            res <= 24,
    {
        proof {
            use_type_invariant(self);
        }
        stored_slice(&self.items).len()
    }

    /// Whether the record holds no move.
    pub fn is_empty(&self) -> (res: bool)
        ensures
            res == (self@.len() == 0),
    {
        self.len() == 0
    }

    /// Puts the square `sq` at the end of a record of fewer than 24 moves.
    pub fn push(&mut self, sq: Square)
        requires
            old(self)@.len() < 24,
        ensures
            final(self).wf(),
            final(self)@ == old(self)@.push(sq.value()),
    {
        proof {
            use_type_invariant(&*self);
        }
        let ghost before = stored(self.items);
        stored_push(&mut self.items, sq.to_inner());
        proof {
            assert(stored(self.items).map_values(|x: u8| x as int) =~= before.map_values(
                |x: u8| x as int,
            ).push(sq.value()));
        }
    }

    /// Puts the square `sq` at the end of a record of fewer than 24 moves.
    pub fn push_unchecked(&mut self, sq: Square)
        requires
            old(self)@.len() < 24,
        ensures
            final(self).wf(),
            final(self)@ == old(self)@.push(sq.value()),
    {
        self.push(sq)
    }

    /// Takes the last move out of the record; the record of no move stays as it is.
    pub fn remove_last(&mut self)
        ensures
            final(self).wf(),
            old(self)@.len() == 0 ==> final(self)@ == old(self)@,
            old(self)@.len() > 0 ==> final(self)@ == old(self)@.drop_last(),
    {
        proof {
            use_type_invariant(&*self);
        }
        let ghost before = stored(self.items);
        let _ = stored_pop(&mut self.items);
        proof {
            if before.len() > 0 {
                assert(stored(self.items).map_values(|x: u8| x as int) =~= before.map_values(
                    |x: u8| x as int,
                ).drop_last());
            }
        }
    }

    /// Takes the last move out of a record that holds a move.
    pub fn remove_last_unchecked(&mut self)
        requires
            old(self)@.len() > 0,
        ensures
            final(self).wf(),
            final(self)@ == old(self)@.drop_last(),
    {
        self.remove_last()
    }
}

impl Clone for ActionHistory {
    fn clone(&self) -> (res: ActionHistory)
        ensures
            res@ == self@,
    {
        proof {
            use_type_invariant(self);
        }
        ActionHistory { items: stored_clone(&self.items) }
    }
}

impl Default for ActionHistory {
    fn default() -> (res: ActionHistory)
        ensures
            res@ == Seq::<int>::empty(),
    {
        ActionHistory::new()
    }
}

} // verus!
