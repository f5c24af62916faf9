//! Boards: the 8 x 6 grid of pieces, kept packed to the left.

use vstd::prelude::*;
use crate::array::{ColArray, RowArray};
use crate::bitcol::{fall, lemma_fall_none, lemma_fall_values, BitCol};
use crate::grid::{
    component, in_grid, lemma_no_pair, pair_above, pair_beside, pair_in,
};
use crate::mask::{cols_set, starts_before, MaskBoard};
use crate::piece::Piece;
use crate::rules::{
    cells_of, col_is_blank, col_settled, compact, count_pieces, count_value, differing,
    erase_grid, fallen, grid_ok, grid_shape, has_move, is_width, kept_cols, lemma_compact_packed,
    lemma_erase_nothing, lemma_has_move, occupied, rows_in, settled,
};
use crate::square::{Col, Square};

verus! {

/// The grid that the eight bit-columns hold.
pub open spec fn cols_view(cols: [BitCol; 8]) -> Seq<Seq<int>> {
    Seq::new(8, |c: int| cols[c]@)
}

/// Whether the eight bit-columns hold empty cells and pieces only, and the columns
/// that hold a piece are the first `width`.
pub open spec fn board_cols_wf(cols: [BitCol; 8], width: u32) -> bool {
    &&& width <= 8
    &&& forall|c: int| 0 <= c < 8 ==> (#[trigger] cols[c]).wf() && cols[c].cells_at_most(5)
    &&& forall|c: int| 0 <= c < 8 ==> (c < width) == !(#[trigger] cols[c]).is_blank()
}

/// A bit-column is blank exactly if its view is.
pub proof fn lemma_blank_view(bc: BitCol)
    ensures
        bc.is_blank() == col_is_blank(bc@),
        bc@.len() == 6,
{
    if bc.is_blank() {
        assert forall|r: int| 0 <= r < 6 implies #[trigger] bc@[r] == 0 by {
            assert(bc.cell(r) == 0);
        }
    }
    if col_is_blank(bc@) {
        assert forall|r: int| 0 <= r < 6 implies #[trigger] bc.cell(r) == 0 by {
            assert(bc@[r] == 0);
        }
    }
}

/// The columns from `w` on hold no piece, so none of them is kept.
pub proof fn lemma_kept_cols_tail(cols: Seq<Seq<int>>, w: int, n: int)
    requires
        0 <= w <= n <= cols.len(),
        forall|c: int| w <= c < n ==> col_is_blank(#[trigger] cols[c]),
    ensures
        kept_cols(cols, n) == kept_cols(cols, w),
    decreases n,
{
    if n > w {
        lemma_kept_cols_tail(cols, w, n - 1);
    }
}

/// A board: the grid of pieces.
///
/// Every cell is empty (0) or holds one of the five kinds (1 to 5), and the columns
/// that hold a piece are the first `width_remain`.
#[derive(Clone, Copy, Debug, PartialEq, Eq, Hash)]
pub struct Board {
    cols: [BitCol; 8],
    width_remain: u32,
}

impl View for Board {
    type V = Seq<Seq<int>>;

    /// The grid: eight columns, each of six cell values from the bottom up.
    closed spec fn view(&self) -> Seq<Seq<int>> {
        cols_view(self.cols)
    }
}

impl Board {
    /// Whether the board is well-formed: every cell is empty or holds one of the five
    /// kinds, and the columns that hold a piece are the first `width()`.
    #[verifier::type_invariant]
    pub closed spec fn wf(self) -> bool {
        board_cols_wf(self.cols, self.width_remain)
    }

    /// The number of columns that hold a piece.
    pub closed spec fn width(self) -> int {
        self.width_remain as int
    }

    /// The value of the cell of `sq`: 0 if it is empty, else the number of the kind.
    pub open spec fn at(self, sq: Square) -> int {
        self@[sq.col_index()][sq.row_index()]
    }

    /// The grid of a well-formed board has eight columns of six cells, every cell is
    /// empty or one of the five kinds, the columns that hold a piece are the first
    /// `width()`, and the columns from there on are empty.
    pub proof fn lemma_grid(self)
        requires
            self.wf(),
        ensures
            grid_ok(self@),
            is_width(self@, self.width()),
    {
        assert forall|c: int| 0 <= c < 8 implies (c < self.width()) == !col_is_blank(
            #[trigger] self@[c],
        ) by {
            lemma_blank_view(self.cols[c]);
        }
        assert forall|c: int, r: int| 0 <= c < 8 && 0 <= r < 6 implies 0 <= #[trigger] self@[c][r]
            <= 5 by {
            assert(self.cols[c].cells_at_most(5));
            assert(self@[c][r] == self.cols[c].cell(r));
            self.cols[c].lemma_cell_range(r);
        }
        assert(is_width(self@, self.width()));
    }

    /// Two well-formed boards with the same grid are the same board.
    pub proof fn lemma_ext(self, other: Board)
        requires
            self.wf(),
            other.wf(),
            self@ == other@,
        ensures
            self == other,
    {
        assert forall|c: int| 0 <= c < 8 implies self.cols[c] == other.cols[c] by {
            assert(self@[c] == other@[c]);
            self.cols[c].lemma_view_ext(other.cols[c]);
        }
        assert(self.cols =~= other.cols);
        if self.width_remain < other.width_remain {
            assert(self.cols[self.width_remain as int].is_blank());
        }
        if other.width_remain < self.width_remain {
            assert(other.cols[other.width_remain as int].is_blank());
        }
    }

    /// A well-formed board has no column that holds a piece exactly if every cell of
    /// it is empty.
    pub proof fn lemma_clear(self)
        requires
            self.wf(),
        ensures
            self.width() == 0 <==> forall|c: int, r: int|
                0 <= c < 8 && 0 <= r < 6 ==> #[trigger] self@[c][r] == 0,
    {
        if self.width() == 0 {
            assert forall|c: int, r: int| 0 <= c < 8 && 0 <= r < 6 implies #[trigger] self@[c][r]
                == 0 by {
                assert(self.cols[c].is_blank());
                assert(self@[c][r] == self.cols[c].cell(r));
            }
        } else {
            assert(!self.cols[0].is_blank());
            let r = choose|r: int| 0 <= r < 6 && self.cols[0].cell(r) != 0;
            assert(self@[0][r] == self.cols[0].cell(r));
        }
    }

    /// Whether the two boards hold the same pieces on the same squares.
    pub fn same(&self, other: &Board) -> (res: bool)
        ensures
            res == (self@ == other@),
            res == (*self == *other),
    {
        proof {
            use_type_invariant(self);
            use_type_invariant(other);
            if self@ == other@ {
                self.lemma_ext(*other);
            }
        }
        let mut c: usize = 0;
        while c < 8
            invariant
                0 <= c <= 8,
                self@ == other@ ==> *self == *other,
                forall|k: int| 0 <= k < c ==> self.cols[k] == other.cols[k],
            decreases 8 - c,
        {
            if self.cols[c].inner() != other.cols[c].inner() {
                proof {
                    if self.cols[c as int] == other.cols[c as int] {
                        assert(false);
                    }
                }
                return false;
            }
            proof {
                let a = self.cols[c as int];
                let b = other.cols[c as int];
                assert(a.inner_spec() == b.inner_spec());
                BitCol::lemma_inner_ext(a, b);
            }
            c = c + 1;
        }
        proof {
            assert(self.cols =~= other.cols);
            assert(self@ == other@);
        }
        true
    }

    /// The board whose columns are the eight bit-columns, of which the first `width`
    /// hold a piece.
    pub(crate) fn from_packed_cols(cols: [BitCol; 8], width: u32) -> (res: Board)
        requires
            width <= 8,
            forall|c: int, r: int| 0 <= c < 8 && 0 <= r < 6 ==> #[trigger] cols[c].cell(r) <= 5,
            forall|c: int| 0 <= c < 8 ==> (c < width) == !(#[trigger] cols[c]).is_blank(),
        ensures
            res.wf(),
            res@ == cols_view(cols),
            res.width() == width,
    {
        let mut c: usize = 0;
        while c < 8
            invariant
                0 <= c <= 8,
                forall|k: int| 0 <= k < c ==> (#[trigger] cols[k]).wf(),
            decreases 8 - c,
        {
            let bc = cols[c];
            proof {
                use_type_invariant(&bc);
            }
            c = c + 1;
        }
        proof {
            assert forall|k: int| 0 <= k < 8 implies (#[trigger] cols[k]).cells_at_most(5) by {
                assert forall|r: int| 0 <= r < 6 implies #[trigger] cols[k].cell(r) <= 5 by {}
            }
        }
        Board { cols, width_remain: width }
    }

    /// The eight bit-columns of the board.
    pub fn to_cols(&self) -> (res: [BitCol; 8])
        ensures
            cols_view(res) == self@,
            forall|c: int, r: int| 0 <= c < 8 && 0 <= r < 6 ==> 0 <= #[trigger] res[c].cell(r) <= 5,
    {
        proof {
            use_type_invariant(self);
            assert forall|c: int, r: int| 0 <= c < 8 && 0 <= r < 6 implies 0
                <= #[trigger] self.cols[c].cell(r) <= 5 by {
                assert(self.cols[c].cells_at_most(5));
                self.cols[c].lemma_cell_range(r);
            }
        }
        self.cols
    }

    /// The board with no piece.
    pub fn empty() -> (res: Board)
        ensures
            res.wf(),
            res.width() == 0,
            forall|c: int, r: int| 0 <= c < 8 && 0 <= r < 6 ==> #[trigger] res@[c][r] == 0,
    {
        let cols: [BitCol; 8] = [BitCol::zero(); 8];
        proof {
            assert forall|c: int| 0 <= c < 8 implies (#[trigger] cols[c]).cells_at_most(5) by {
                assert(cols[c].is_blank());
            }
            assert forall|c: int, r: int| 0 <= c < 8 && 0 <= r < 6 implies #[trigger] cols_view(
                cols,
            )[c][r] == 0 by {
                assert(cols[c].is_blank());
                assert(cols[c]@[r] == cols[c].cell(r));
            }
        }
        Board { cols, width_remain: 0 }
    }

    /// The board that holds the given pieces, column by column; every cell is filled.
    pub fn from_piece_arrays(arrays: &ColArray<RowArray<Piece>>) -> (res: Board)
        ensures
            res.wf(),
            res.width() == 8,
            forall|c: int, r: int|
                0 <= c < 8 && 0 <= r < 6 ==> #[trigger] res@[c][r] == arrays.0[c].0[r].value(),
            forall|c: int, r: int| 0 <= c < 8 && 0 <= r < 6 ==> 1 <= #[trigger] res@[c][r] <= 5,
            settled(res@),
    {
        let mut cols: [BitCol; 8] = [BitCol::zero(); 8];
        let mut c: usize = 0;
        while c < 8
            invariant
                0 <= c <= 8,
                forall|k: int| 0 <= k < 8 ==> (#[trigger] cols[k]).wf(),
                forall|k: int, r: int|
                    0 <= k < c && 0 <= r < 6 ==> #[trigger] cols[k].cell(r) == arrays.0[k].0[r].value(),
                forall|k: int, r: int|
                    0 <= k < c && 0 <= r < 6 ==> 1 <= #[trigger] cols[k].cell(r) <= 5,
            decreases 8 - c,
        {
            let col = Col::from_index(c).unwrap();
            let pieces: &[Piece; 6] = arrays.get(col).as_array();
            let bc = BitCol::from_pieces(pieces);
            let ghost before = cols;
            cols[c] = bc;
            proof {
                assert forall|k: int, r: int| 0 <= k < c + 1 && 0 <= r < 6 implies 1
                    <= #[trigger] cols[k].cell(r) <= 5 && cols[k].cell(r)
                    == arrays.0[k].0[r].value() by {
                    if k == c {
                        assert(bc.cell(r) == pieces[r].value());
                        assert(1 <= bc.cell(r) <= 5);
                    } else {
                        assert(cols[k] == before[k]);
                    }
                }
                assert forall|k: int| 0 <= k < 8 implies (#[trigger] cols[k]).wf() by {
                    if k != c {
                        assert(cols[k] == before[k]);
                    }
                }
            }
            c = c + 1;
        }
        proof {
            assert forall|k: int| 0 <= k < 8 implies (#[trigger] cols[k]).cells_at_most(5)
                && !cols[k].is_blank() by {
                assert(1 <= cols[k].cell(0) <= 5);
            }
            assert forall|k: int, r: int| 0 <= k < 8 && 0 <= r < 6 implies #[trigger] cols_view(
                cols,
            )[k][r] == arrays.0[k].0[r].value() && 1 <= cols_view(cols)[k][r] <= 5 by {
                assert(cols[k]@[r] == cols[k].cell(r));
                assert(1 <= cols[k].cell(r) <= 5);
            }
            assert forall|k: int| 0 <= k < 8 implies col_settled(#[trigger] cols_view(cols)[k]) by {
                assert forall|i: int, j: int| 0 <= i < j < 6 && cols_view(cols)[k][i]
                    == 0 implies cols_view(cols)[k][j] == 0 by {
                    assert(1 <= cols_view(cols)[k][i] <= 5);
                }
            }
        }
        Board { cols, width_remain: 8 }
    }

    /// The piece on the square `sq`, if there is one.
    pub fn get(&self, sq: Square) -> (res: Option<Piece>)
        ensures
            res is None <==> self.at(sq) == 0,
            res is Some ==> res->0.value() == self.at(sq) && res->0.wf(),
    {
        proof {
            use_type_invariant(self);
            use_type_invariant(&sq);
            sq.lemma_cell();
            assert(self.cols[sq.col_index()].cells_at_most(5));
            assert(self@[sq.col_index()][sq.row_index()] == self.cols[sq.col_index()].cell(
                sq.row_index(),
            ));
            self.cols[sq.col_index()].lemma_cell_range(sq.row_index());
        }
        let value: u8 = self.cols[sq.col().to_index()].get(sq.row());
        Piece::from_inner(value)
    }

    /// Whether the board holds no piece.
    pub fn is_empty(&self) -> (res: bool)
        ensures
            res == (self.width() == 0),
    {
        self.width_remain == 0
    }

    /// The number of columns that hold a piece.
    pub fn width_remain(&self) -> (res: u32)
        ensures
            res == self.width(),
            res <= 8,
    {
        proof {
            use_type_invariant(self);
        }
        self.width_remain
    }

    /// The columns that hold a piece, from left to right.
    pub fn nonempty_cols(&self) -> (res: Vec<Col>)
        ensures
            res.len() == self.width(),
            forall|i: int| 0 <= i < res.len() ==> (#[trigger] res[i]).wf() && res[i].index() == i,
    {
        proof {
            use_type_invariant(self);
        }
        let mut res: Vec<Col> = Vec::new();
        let mut c: usize = 0;
        while c < self.width_remain as usize
            invariant
                0 <= c <= self.width_remain <= 8,
                res.len() == c,
                forall|i: int| 0 <= i < res.len() ==> (#[trigger] res[i]).wf() && res[i].index() == i,
            decreases self.width_remain - c,
        {
            res.push(Col::from_index(c).unwrap());
            c = c + 1;
        }
        res
    }

    /// The mask of the cells that hold the kind `piece`.
    pub fn piece_mask(&self, piece: Piece) -> (res: MaskBoard)
        ensures
            res.wf(),
            res@ == cells_of(self@, piece.value()),
    {
        proof {
            use_type_invariant(self);
        }
        let value: u8 = piece.to_inner();
        let mut cols: [BitCol; 8] = [BitCol::zero(); 8];
        let mut c: usize = 0;
        while c < self.width_remain as usize
            invariant
                0 <= c <= self.width_remain <= 8,
                self.wf(),
                1 <= value <= 5,
                forall|k: int| 0 <= k < 8 ==> (#[trigger] cols[k]).is_mask(),
                forall|k: int, r: int|
                    0 <= k < c && 0 <= r < 6 ==> #[trigger] cols[k].has(r) == (self.cols[k].cell(r)
                        == value),
                forall|k: int| c <= k < 8 ==> (#[trigger] cols[k]).is_blank(),
            decreases self.width_remain - c,
        {
            let ghost before = cols;
            let bc = self.cols[c].eq_mask(value);
            cols[c] = bc;
            proof {
                assert forall|k: int| 0 <= k < 8 && k != c implies cols[k] == before[k] by {}
                assert forall|k: int, r: int| 0 <= k < c + 1 && 0 <= r < 6 implies #[trigger] cols[k].has(
                    r,
                ) == (self.cols[k].cell(r) == value) by {
                    if k != c {
                        assert(cols[k] == before[k]);
                    }
                }
                assert forall|k: int| 0 <= k < 8 implies (#[trigger] cols[k]).is_mask() by {
                    if k != c {
                        assert(cols[k] == before[k]);
                    }
                }
                assert forall|k: int| c + 1 <= k < 8 implies (#[trigger] cols[k]).is_blank() by {
                    assert(cols[k] == before[k]);
                }
            }
            c = c + 1;
        }
        let res = MaskBoard::from_cols(cols);
        proof {
            assert forall|p: (int, int)| cols_set(cols).contains(p) == cells_of(
                self@,
                piece.value(),
            ).contains(p) by {
                if in_grid(p) {
                    assert(self@[p.0][p.1] == self.cols[p.0].cell(p.1));
                    if p.0 >= c {
                        assert(cols[p.0].is_blank());
                        assert(self.cols[p.0].is_blank());
                    }
                }
            }
            assert(cols_set(cols) =~= cells_of(self@, piece.value()));
        }
        res
    }

    /// The mask of the cells in which the two boards differ.
    pub fn xor_mask(&self, other: &Board) -> (res: MaskBoard)
        ensures
            res.wf(),
            res@ == differing(self@, other@),
    {
        proof {
            use_type_invariant(self);
            use_type_invariant(other);
        }
        let width: u32 = if self.width_remain >= other.width_remain {
            self.width_remain
        } else {
            other.width_remain
        };
        let mut cols: [BitCol; 8] = [BitCol::zero(); 8];
        let mut c: usize = 0;
        while c < width as usize
            invariant
                0 <= c <= width <= 8,
                self.wf(),
                other.wf(),
                forall|k: int| 0 <= k < 8 ==> (#[trigger] cols[k]).is_mask(),
                forall|k: int, r: int|
                    0 <= k < c && 0 <= r < 6 ==> #[trigger] cols[k].has(r) == (self.cols[k].cell(r)
                        != other.cols[k].cell(r)),
                forall|k: int| c <= k < 8 ==> (#[trigger] cols[k]).is_blank(),
            decreases width - c,
        {
            let ghost before = cols;
            let bc = self.cols[c].diff_mask(other.cols[c]);
            cols[c] = bc;
            proof {
                assert forall|k: int, r: int| 0 <= k < c + 1 && 0 <= r < 6 implies #[trigger] cols[k].has(
                    r,
                ) == (self.cols[k].cell(r) != other.cols[k].cell(r)) by {
                    if k != c {
                        assert(cols[k] == before[k]);
                    }
                }
                assert forall|k: int| 0 <= k < 8 implies (#[trigger] cols[k]).is_mask() by {
                    if k != c {
                        assert(cols[k] == before[k]);
                    }
                }
                assert forall|k: int| c + 1 <= k < 8 implies (#[trigger] cols[k]).is_blank() by {
                    assert(cols[k] == before[k]);
                }
            }
            c = c + 1;
        }
        let res = MaskBoard::from_cols(cols);
        proof {
            assert forall|p: (int, int)| cols_set(cols).contains(p) == differing(
                self@,
                other@,
            ).contains(p) by {
                if in_grid(p) {
                    assert(self@[p.0][p.1] == self.cols[p.0].cell(p.1));
                    assert(other@[p.0][p.1] == other.cols[p.0].cell(p.1));
                    if p.0 >= c {
                        assert(cols[p.0].is_blank());
                        assert(self.cols[p.0].is_blank());
                        assert(other.cols[p.0].is_blank());
                    }
                }
            }
            assert(cols_set(cols) =~= differing(self@, other@));
        }
        res
    }

    /// The board after the cells of `mb` are erased: the pieces above them fall, then
    /// the columns that have become empty are taken out.
    pub fn erase(&self, mb: &MaskBoard) -> (res: Board)
        ensures
            res.wf(),
            res@ == erase_grid(self@, mb@),
    {
        proof {
            use_type_invariant(self);
        }
        let ghost g = self@;
        let ghost m = mb@;
        let mut bcs: [BitCol; 8] = self.cols;
        let mut erased = false;
        let mut c: usize = 0;
        while c < 8
            invariant
                0 <= c <= 8,
                self.wf(),
                g == self@,
                m == mb@,
                forall|k: int| 0 <= k < 8 ==> (#[trigger] bcs[k]).wf() && bcs[k].cells_at_most(5),
                forall|k: int| 0 <= k < c ==> (#[trigger] bcs[k])@ == fall(g[k], rows_in(m, k)),
                forall|k: int| c <= k < 8 ==> #[trigger] bcs[k] == self.cols[k],
                forall|k: int|
                    0 <= k < c && self.cols[k].is_blank() ==> (#[trigger] bcs[k]).is_blank(),
                !erased ==> forall|k: int|
                    0 <= k < c ==> (#[trigger] bcs[k]).is_blank() == self.cols[k].is_blank(),
            decreases 8 - c,
        {
            let ghost before = bcs;
            let del = mb.col_bits(c);
            proof {
                assert(del.rows() =~= rows_in(m, c as int));
                assert(g[c as int] == self.cols[c as int]@);
                lemma_blank_view(self.cols[c as int]);
            }
            if !del.is_zero() {
                let bc = bcs[c].remove_rows(del);
                bcs[c] = bc;
                if bc.is_zero() {
                    erased = true;
                }
                proof {
                    assert forall|r: int| 0 <= r < 6 implies 0 <= #[trigger] g[c as int][r] <= 5 by {
                        assert(self.cols[c as int].cells_at_most(5));
                        assert(g[c as int][r] == self.cols[c as int].cell(r));
                        self.cols[c as int].lemma_cell_range(r);
                    }
                    lemma_fall_values(g[c as int], rows_in(m, c as int), 0, 5);
                    assert forall|r: int| 0 <= r < 6 implies #[trigger] bc.cell(r) <= 5 by {
                        assert(bc@[r] == bc.cell(r));
                    }
                    if self.cols[c as int].is_blank() {
                        assert forall|r: int| 0 <= r < 6 implies 0 <= #[trigger] g[c as int][r]
                            <= 0 by {
                            assert(self.cols[c as int].cell(r) == 0);
                            assert(g[c as int][r] == self.cols[c as int].cell(r));
                        }
                        lemma_fall_values(g[c as int], rows_in(m, c as int), 0, 0);
                        assert forall|r: int| 0 <= r < 6 implies #[trigger] bc.cell(r) == 0 by {
                            assert(bc@[r] == bc.cell(r));
                        }
                    }
                }
            } else {
                proof {
                    assert forall|r: int| 0 <= r < 6 implies !rows_in(m, c as int).contains(r) by {
                        assert(del.has(r) == m.contains((c as int, r)));
                        assert(del.cell(r) == 0);
                    }
                    lemma_fall_none(g[c as int], rows_in(m, c as int));
                }
            }
            proof {
                assert forall|k: int| 0 <= k < 8 && k != c implies bcs[k] == before[k] by {}
                assert forall|k: int| 0 <= k < 8 implies (#[trigger] bcs[k]).wf()
                    && bcs[k].cells_at_most(5) by {
                    if k != c {
                        assert(bcs[k] == before[k]);
                    }
                }
                assert forall|k: int| 0 <= k < c + 1 implies (#[trigger] bcs[k])@ == fall(
                    g[k],
                    rows_in(m, k),
                ) by {
                    if k != c {
                        assert(bcs[k] == before[k]);
                    }
                }
                assert forall|k: int| c + 1 <= k < 8 implies #[trigger] bcs[k] == self.cols[k] by {
                    assert(bcs[k] == before[k]);
                }
                assert forall|k: int| 0 <= k < c + 1 && self.cols[k].is_blank() implies (
                #[trigger] bcs[k]).is_blank() by {
                    if k != c {
                        assert(bcs[k] == before[k]);
                    }
                }
                if !erased {
                    assert forall|k: int| 0 <= k < c + 1 implies (#[trigger] bcs[k]).is_blank()
                        == self.cols[k].is_blank() by {
                        if k != c {
                            assert(bcs[k] == before[k]);
                        }
                    }
                }
            }
            c = c + 1;
        }
        let ghost fv = cols_view(bcs);
        proof {
            assert(fv =~= fallen(g, m)) by {
                assert forall|k: int| 0 <= k < 8 implies fv[k] == fallen(g, m)[k] by {
                    assert(fv[k] == bcs[k]@);
                }
            }
            assert(grid_shape(fv)) by {
                assert forall|k: int| 0 <= k < 8 implies (#[trigger] fv[k]).len() == 6 by {
                    assert(fv[k] == bcs[k]@);
                }
            }
        }
        if !erased {
            proof {
                assert forall|k: int| 0 <= k < 8 implies (k < self.width()) == !col_is_blank(
                    #[trigger] fv[k],
                ) by {
                    assert(fv[k] == bcs[k]@);
                    lemma_blank_view(bcs[k]);
                }
                lemma_compact_packed(fv, self.width());
            }
            Board { cols: bcs, width_remain: self.width_remain }
        } else {
            let mut out: [BitCol; 8] = [BitCol::zero(); 8];
            let mut w: u32 = 0;
            let mut k: usize = 0;
            while k < self.width_remain as usize
                invariant
                    0 <= w <= k <= self.width_remain <= 8,
                    fv == cols_view(bcs),
                    forall|i: int| 0 <= i < 8 ==> (#[trigger] bcs[i]).wf() && bcs[i].cells_at_most(5),
                    forall|i: int| 0 <= i < 8 ==> (#[trigger] out[i]).wf() && out[i].cells_at_most(5),
                    kept_cols(fv, k as int).len() == w,
                    forall|i: int| 0 <= i < w ==> (#[trigger] out[i])@ == kept_cols(fv, k as int)[i],
                    forall|i: int| 0 <= i < w ==> !(#[trigger] out[i]).is_blank(),
                    forall|i: int| w <= i < 8 ==> (#[trigger] out[i]).is_blank(),
                decreases self.width_remain - k,
            {
                let ghost before = out;
                let bc = bcs[k];
                proof {
                    assert(fv[k as int] == bcs[k as int]@);
                    lemma_blank_view(bc);
                }
                if !bc.is_zero() {
                    out[w as usize] = bc;
                    proof {
                        assert forall|i: int| 0 <= i < 8 && i != w implies out[i] == before[i] by {}
                        assert forall|i: int| 0 <= i < 8 implies (#[trigger] out[i]).wf()
                            && out[i].cells_at_most(5) by {
                            if i != w {
                                assert(out[i] == before[i]);
                            }
                        }
                        assert forall|i: int| 0 <= i < w + 1 implies (#[trigger] out[i])@
                            == kept_cols(fv, k + 1)[i] && !out[i].is_blank() by {
                            if i != w {
                                assert(out[i] == before[i]);
                            }
                        }
                        assert forall|i: int| w + 1 <= i < 8 implies (#[trigger] out[i]).is_blank() by {
                            assert(out[i] == before[i]);
                        }
                    }
                    w = w + 1;
                }
                k = k + 1;
            }
            proof {
                assert forall|i: int| self.width() <= i < 8 implies col_is_blank(#[trigger] fv[i]) by {
                    assert(fv[i] == bcs[i]@);
                    lemma_blank_view(bcs[i]);
                    assert(self.cols[i].is_blank());
                }
                lemma_kept_cols_tail(fv, self.width(), 8);
                let kept = kept_cols(fv, 8);
                assert forall|i: int| 0 <= i < 8 implies cols_view(out)[i] == compact(fv)[i] by {
                    assert(cols_view(out)[i] == out[i]@);
                    if i >= w {
                        lemma_blank_view(out[i]);
                        crate::rules::lemma_blank_col(out[i]@);
                    }
                }
                assert(cols_view(out) =~= compact(fv));
            }
            Board { cols: out, width_remain: w }
        }
    }
}

impl Board {
    /// Erasing the cells of an empty mask leaves the board as it is.
    pub proof fn lemma_erase_empty(self, mb: MaskBoard)
        requires
            self.wf(),
            mb@ == Set::<(int, int)>::empty(),
        ensures
            erase_grid(self@, mb@) == self@,
    {
        self.lemma_grid();
        lemma_erase_nothing(self@, mb@);
    }

    /// An erasure keeps the pieces at rest: where no piece of the board stands above
    /// an empty cell, none does after the cells of `m` are erased.
    pub proof fn lemma_erase_settled(self, m: Set<(int, int)>)
        requires
            self.wf(),
            settled(self@),
        ensures
            settled(erase_grid(self@, m)),
    {
        self.lemma_grid();
        crate::rules::lemma_erase_settled(self@, m);
    }

    /// Whether no piece stands above an empty cell.
    pub fn is_settled(&self) -> (res: bool)
        ensures
            res == settled(self@),
    {
        proof {
            use_type_invariant(self);
        }
        let mut c: usize = 0;
        while c < self.width_remain as usize
            invariant
                0 <= c <= self.width_remain <= 8,
                self.wf(),
                forall|k: int| 0 <= k < c ==> col_settled(#[trigger] self@[k]),
            decreases self.width_remain - c,
        {
            let bc = self.cols[c];
            let ghost col = self@[c as int];
            let mut seen_empty = false;
            let mut r: usize = 0;
            while r < 6
                invariant
                    0 <= r <= 6,
                    0 <= c < 8,
                    col == self@[c as int],
                    bc == self.cols[c as int],
                    seen_empty == exists|i: int| 0 <= i < r && col[i] == 0,
                    forall|i: int, j: int| 0 <= i < j < r && col[i] == 0 ==> col[j] == 0,
                decreases 6 - r,
            {
                let row = crate::square::Row::from_index(r).unwrap();
                let v: u8 = bc.get(row);
                proof {
                    assert(col[r as int] == bc.cell(r as int));
                }
                if v == 0 {
                    seen_empty = true;
                } else if seen_empty {
                    proof {
                        let i = choose|i: int| 0 <= i < r && col[i] == 0;
                        assert(!col_settled(col));
                    }
                    return false;
                }
                r = r + 1;
            }
            c = c + 1;
        }
        proof {
            assert forall|k: int| 0 <= k < 8 implies col_settled(#[trigger] self@[k]) by {
                if k >= c {
                    assert(self.cols[k].is_blank());
                    assert forall|i: int| 0 <= i < 6 implies self@[k][i] == 0 by {
                        assert(self@[k][i] == self.cols[k].cell(i));
                    }
                }
            }
        }
        true
    }

    /// The mask of the cells that hold a piece.
    pub fn occupied_mask(&self) -> (res: MaskBoard)
        ensures
            res.wf(),
            res@ == occupied(self@),
    {
        proof {
            use_type_invariant(self);
        }
        let mut cols: [BitCol; 8] = [BitCol::zero(); 8];
        let mut c: usize = 0;
        while c < self.width_remain as usize
            invariant
                0 <= c <= self.width_remain <= 8,
                self.wf(),
                forall|k: int| 0 <= k < 8 ==> (#[trigger] cols[k]).is_mask(),
                forall|k: int, r: int|
                    0 <= k < c && 0 <= r < 6 ==> #[trigger] cols[k].has(r) == (self.cols[k].cell(r)
                        != 0),
                forall|k: int| c <= k < 8 ==> (#[trigger] cols[k]).is_blank(),
            decreases self.width_remain - c,
        {
            let ghost before = cols;
            let bc = self.cols[c].nonzero_mask();
            cols[c] = bc;
            proof {
                assert forall|k: int, r: int| 0 <= k < c + 1 && 0 <= r < 6 implies #[trigger] cols[k].has(
                    r,
                ) == (self.cols[k].cell(r) != 0) by {
                    if k != c {
                        assert(cols[k] == before[k]);
                    }
                }
                assert forall|k: int| 0 <= k < 8 implies (#[trigger] cols[k]).is_mask() by {
                    if k != c {
                        assert(cols[k] == before[k]);
                    }
                }
                assert forall|k: int| c + 1 <= k < 8 implies (#[trigger] cols[k]).is_blank() by {
                    assert(cols[k] == before[k]);
                }
            }
            c = c + 1;
        }
        let res = MaskBoard::from_cols(cols);
        proof {
            assert forall|p: (int, int)| cols_set(cols).contains(p) == occupied(self@).contains(
                p,
            ) by {
                if in_grid(p) {
                    assert(self@[p.0][p.1] == self.cols[p.0].cell(p.1));
                    if p.0 >= c {
                        assert(cols[p.0].is_blank());
                        assert(self.cols[p.0].is_blank());
                    }
                }
            }
            assert(cols_set(cols) =~= occupied(self@));
        }
        res
    }

    /// The number of pieces of the kind `piece`.
    pub fn piece_count(&self, piece: Piece) -> (res: u32)
        ensures
            res == count_value(self@, piece.value()),
            res <= 48,
    {
        self.piece_mask(piece).square_count()
    }

    /// The number of pieces.
    pub fn piece_count_total(&self) -> (res: u32)
        ensures
            res == count_pieces(self@),
            res <= 48,
    {
        self.occupied_mask().square_count()
    }

    /// Whether a move can be made: two neighbouring cells hold pieces of the same kind.
    pub fn has_action(&self) -> (res: bool)
        ensures
            res == has_move(self@),
    {
        proof {
            use_type_invariant(self);
            self.lemma_grid();
            lemma_has_move(self@);
        }
        if self.is_empty() {
            proof {
                assert forall|v: int| 1 <= v <= 5 implies !#[trigger] pair_in(cells_of(self@, v)) by {
                    if pair_in(cells_of(self@, v)) {
                        let (a, b) = choose|a: (int, int), b: (int, int)|
                            #[trigger] crate::grid::adjacent(a, b) && cells_of(self@, v).contains(a)
                                && cells_of(self@, v).contains(b);
                        assert(self.cols[a.0].is_blank());
                        assert(self@[a.0][a.1] == self.cols[a.0].cell(a.1));
                    }
                }
            }
            return false;
        }
        let pieces = Piece::all();
        let mut i: usize = 0;
        while i < 5
            invariant
                0 <= i <= 5,
                pieces.len() == 5,
                forall|j: int| 0 <= j < 5 ==> (#[trigger] pieces[j]).value() == j + 1,
                forall|v: int| 1 <= v <= i ==> !#[trigger] pair_in(cells_of(self@, v)),
                has_move(self@) <==> exists|v: int| 1 <= v <= 5 && #[trigger] pair_in(cells_of(self@, v)),
            decreases 5 - i,
        {
            let piece = pieces[i];
            let mb = self.piece_mask(piece);
            let ghost s = mb@;
            let mut c: usize = 0;
            while c < 8
                invariant
                    0 <= c <= 8,
                    s == mb@,
                    s == cells_of(self@, i + 1),
                    mb.wf(),
                    forall|k: int| 0 <= k < c ==> !pair_above(s, k),
                    forall|k: int| 1 <= k < c ==> !pair_beside(s, k),
                    has_move(self@) <==> exists|v: int|
                        1 <= v <= 5 && #[trigger] pair_in(cells_of(self@, v)),
                decreases 8 - c,
            {
                let bc = mb.col_bits(c);
                if bc.has_vertical_pair() {
                    proof {
                        let r = choose|r: int| 0 <= r < 5 && bc.has(r) && #[trigger] bc.has(r + 1);
                        assert(crate::grid::adjacent((c as int, r), (c as int, r + 1)));
                        assert(pair_in(s));
                    }
                    return true;
                }
                proof {
                    if pair_above(s, c as int) {
                        let r = choose|r: int|
                            0 <= r < 5 && s.contains((c as int, r)) && #[trigger] s.contains(
                                (c as int, r + 1),
                            );
                        assert(bc.has(r) && bc.has(r + 1));
                    }
                }
                if c > 0 {
                    let prev = mb.col_bits(c - 1);
                    if bc.intersects(prev) {
                        proof {
                            let r = choose|r: int| 0 <= r < 6 && #[trigger] bc.has(r) && prev.has(r);
                            assert(crate::grid::adjacent((c as int, r), (c - 1, r)));
                            assert(pair_in(s));
                        }
                        return true;
                    }
                    proof {
                        if pair_beside(s, c as int) {
                            let r = choose|r: int|
                                0 <= r < 6 && #[trigger] s.contains((c as int, r)) && s.contains(
                                    (c - 1, r),
                                );
                            assert(bc.has(r) && prev.has(r));
                        }
                    }
                }
                c = c + 1;
            }
            proof {
                lemma_no_pair(s);
            }
            i = i + 1;
        }
        false
    }

    /// The connected components of the cells of each kind, together with the kind:
    /// first those of kind 1, then those of kind 2 and so on, the components of one
    /// kind in the order of their first cells. A lone piece is a component too.
    pub fn piece_components(&self) -> (res: Vec<(Piece, MaskBoard)>)
        ensures
            forall|i: int| 0 <= i < res.len() ==> (#[trigger] res[i]).0.wf() && res[i].1.wf(),
            forall|i: int, a: (int, int)|
                0 <= i < res.len() && #[trigger] res[i].1@.contains(a) ==> res[i].1@ == component(
                    cells_of(self@, res[i].0.value()),
                    a,
                ),
            forall|a: (int, int)|
                occupied(self@).contains(a) ==> exists|i: int|
                    0 <= i < res.len() && #[trigger] res[i].1@.contains(a),
            forall|i: int, j: int|
                0 <= i < j < res.len() ==> (#[trigger] res[i]).0.value() < (#[trigger] res[j]).0.value()
                    || (res[i].0 == res[j].0 && starts_before(res[i].1@, res[j].1@)),
    {
        proof {
            use_type_invariant(self);
            self.lemma_grid();
        }
        let pieces = Piece::all();
        let mut res: Vec<(Piece, MaskBoard)> = Vec::new();
        let mut i: usize = 0;
        while i < 5
            invariant
                0 <= i <= 5,
                pieces.len() == 5,
                grid_ok(self@),
                forall|j: int| 0 <= j < 5 ==> (#[trigger] pieces[j]).value() == j + 1 && pieces[j].wf(),
                forall|k: int|
                    0 <= k < res.len() ==> (#[trigger] res[k]).0.wf() && res[k].1.wf()
                        && res[k].0.value() <= i,
                forall|k: int, a: (int, int)|
                    0 <= k < res.len() && #[trigger] res[k].1@.contains(a) ==> res[k].1@
                        == component(cells_of(self@, res[k].0.value()), a),
                forall|a: (int, int)|
                    occupied(self@).contains(a) && self@[a.0][a.1] <= i ==> exists|k: int|
                        0 <= k < res.len() && #[trigger] res[k].1@.contains(a),
                forall|k: int, j: int|
                    0 <= k < j < res.len() ==> (#[trigger] res[k]).0.value() < (
                    #[trigger] res[j]).0.value() || (res[k].0 == res[j].0 && starts_before(
                        res[k].1@,
                        res[j].1@,
                    )),
            decreases 5 - i,
        {
            let piece = pieces[i];
            let mb = self.piece_mask(piece);
            let comps = mb.components();
            let ghost done = res@;
            let mut n: usize = 0;
            while n < comps.len()
                invariant
                    0 <= n <= comps.len(),
                    0 <= i < 5,
                    piece.wf(),
                    piece.value() == i + 1,
                    mb@ == cells_of(self@, piece.value()),
                    res.len() == done.len() + n,
                    forall|k: int| 0 <= k < done.len() ==> res[k] == done[k],
                    forall|k: int| 0 <= k < n ==> (#[trigger] res[done.len() + k]) == (piece, comps[k]),
                    forall|k: int| 0 <= k < comps.len() ==> (#[trigger] comps[k]).wf(),
                decreases comps.len() - n,
            {
                res.push((piece, comps[n]));
                n = n + 1;
            }
            proof {
                let d = done.len() as int;
                assert forall|k: int| 0 <= k < res.len() implies (#[trigger] res[k]).0.wf()
                    && res[k].1.wf() && res[k].0.value() <= i + 1 by {
                    if k >= d {
                        assert(res[d + (k - d)] == (piece, comps[k - d]));
                    } else {
                        assert(res[k] == done[k]);
                    }
                }
                assert forall|k: int, a: (int, int)|
                    0 <= k < res.len() && #[trigger] res[k].1@.contains(a) implies res[k].1@
                    == component(cells_of(self@, res[k].0.value()), a) by {
                    if k >= d {
                        assert(res[d + (k - d)] == (piece, comps[k - d]));
                        assert(comps[k - d]@.contains(a));
                    } else {
                        assert(res[k] == done[k]);
                        assert(done[k].1@.contains(a));
                    }
                }
                assert forall|a: (int, int)|
                    occupied(self@).contains(a) && self@[a.0][a.1] <= i + 1 implies exists|k: int|
                    0 <= k < res.len() && #[trigger] res[k].1@.contains(a) by {
                    if self@[a.0][a.1] == i + 1 {
                        assert(mb@.contains(a));
                        let k = choose|k: int| 0 <= k < comps.len() && #[trigger] comps[k]@.contains(a);
                        assert(res[d + k] == (piece, comps[k]));
                        assert(res[d + k].1@.contains(a));
                    } else {
                        let k = choose|k: int| 0 <= k < done.len() && #[trigger] done[k].1@.contains(a);
                        assert(res[k] == done[k]);
                        assert(res[k].1@.contains(a));
                    }
                }
                assert forall|k: int, j: int| 0 <= k < j < res.len() implies (#[trigger] res[k]).0.value()
                    < (#[trigger] res[j]).0.value() || (res[k].0 == res[j].0 && starts_before(
                    res[k].1@,
                    res[j].1@,
                )) by {
                    if j < d {
                        assert(res[k] == done[k]);
                        assert(res[j] == done[j]);
                    } else if k < d {
                        assert(res[k] == done[k]);
                        assert(res[d + (j - d)] == (piece, comps[j - d]));
                    } else {
                        assert(res[d + (k - d)] == (piece, comps[k - d]));
                        assert(res[d + (j - d)] == (piece, comps[j - d]));
                        assert(starts_before(comps[k - d]@, comps[j - d]@));
                    }
                }
            }
            i = i + 1;
        }
        proof {
            assert forall|a: (int, int)| occupied(self@).contains(a) implies exists|k: int|
                0 <= k < res.len() && #[trigger] res[k].1@.contains(a) by {
                assert(0 <= self@[a.0][a.1] <= 5);
            }
        }
        res
    }
}

} // verus!
