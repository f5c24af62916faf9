//! The rules of the game as mathematics, on grids of cell values.
//!
//! A grid is a sequence of eight columns, each a sequence of six cell values from
//! the bottom row up. The value 0 is an empty cell; 1 to 5 are the piece kinds.

use vstd::prelude::*;
use crate::bitcol::{fall, kept_below, lemma_kept_below_len};
use crate::grid::{adjacent, cell_count, in_grid, pair_in};

verus! {

/// Whether every cell of the column is empty.
pub open spec fn col_is_blank(col: Seq<int>) -> bool {
    forall|r: int| 0 <= r < 6 ==> #[trigger] col[r] == 0
}

/// The column of six empty cells.
pub open spec fn blank_col() -> Seq<int> {
    Seq::new(6, |r: int| 0int)
}

/// Whether the grid has eight columns of six cells.
pub open spec fn grid_shape(g: Seq<Seq<int>>) -> bool {
    g.len() == 8 && forall|c: int| 0 <= c < 8 ==> (#[trigger] g[c]).len() == 6
}

/// Whether the columns of the grid that hold a piece are the first `w`.
pub open spec fn is_width(g: Seq<Seq<int>>, w: int) -> bool {
    0 <= w <= 8 && forall|c: int| 0 <= c < 8 ==> (c < w) == !col_is_blank(#[trigger] g[c])
}

/// Whether the grid is one that a board can hold: eight columns of six cells, every
/// cell empty or one of the five kinds, and no empty column to the left of a column
/// that holds a piece.
pub open spec fn grid_ok(g: Seq<Seq<int>>) -> bool {
    &&& grid_shape(g)
    &&& forall|c: int, r: int| 0 <= c < 8 && 0 <= r < 6 ==> 0 <= #[trigger] g[c][r] <= 5
    &&& exists|w: int| is_width(g, w)
}

/// The cells of the grid that hold the value `v`.
pub open spec fn cells_of(g: Seq<Seq<int>>, v: int) -> Set<(int, int)> {
    Set::new(|p: (int, int)| in_grid(p) && g[p.0][p.1] == v)
}

/// The cells of the grid that hold a piece.
pub open spec fn occupied(g: Seq<Seq<int>>) -> Set<(int, int)> {
    Set::new(|p: (int, int)| in_grid(p) && g[p.0][p.1] != 0)
}

/// The cells in which the two grids differ.
pub open spec fn differing(g: Seq<Seq<int>>, h: Seq<Seq<int>>) -> Set<(int, int)> {
    Set::new(|p: (int, int)| in_grid(p) && g[p.0][p.1] != h[p.0][p.1])
}

/// The number of cells of the grid that hold the value `v`.
pub open spec fn count_value(g: Seq<Seq<int>>, v: int) -> int {
    cell_count(cells_of(g, v))
}

/// The number of cells of the grid that hold a piece.
pub open spec fn count_pieces(g: Seq<Seq<int>>) -> int {
    cell_count(occupied(g))
}

/// Whether two neighbouring cells of the grid hold pieces of the same kind.
pub open spec fn has_move(g: Seq<Seq<int>>) -> bool {
    exists|a: (int, int), b: (int, int)|
        #[trigger] adjacent(a, b) && g[a.0][a.1] != 0 && g[a.0][a.1] == g[b.0][b.1]
}

/// The rows of column `c` in which `m` holds a cell.
pub open spec fn rows_in(m: Set<(int, int)>, c: int) -> Set<int> {
    Set::new(|r: int| 0 <= r < 6 && m.contains((c, r)))
}

/// The grid after the cells of `m` are taken out and the pieces above them have fallen.
pub open spec fn fallen(g: Seq<Seq<int>>, m: Set<(int, int)>) -> Seq<Seq<int>> {
    Seq::new(8, |c: int| fall(g[c], rows_in(m, c)))
}

/// The columns among the first `n` that hold a piece, in their order.
pub open spec fn kept_cols(cols: Seq<Seq<int>>, n: int) -> Seq<Seq<int>>
    decreases n,
{
    if n <= 0 {
        Seq::empty()
    } else if col_is_blank(cols[n - 1]) {
        kept_cols(cols, n - 1)
    } else {
        kept_cols(cols, n - 1).push(cols[n - 1])
    }
}

/// The grid after its empty columns are taken out and the columns to their right have
/// moved left.
pub open spec fn compact(cols: Seq<Seq<int>>) -> Seq<Seq<int>> {
    let kept = kept_cols(cols, 8);
    Seq::new(
        8,
        |c: int|
            if c < kept.len() {
                kept[c]
            } else {
                blank_col()
            },
    )
}

/// The grid after the cells of `m` are erased: the pieces above them fall, then the
/// columns that have become empty are taken out.
pub open spec fn erase_grid(g: Seq<Seq<int>>, m: Set<(int, int)>) -> Seq<Seq<int>> {
    compact(fallen(g, m))
}

/// No more than `n` of the first `n` columns are kept.
pub proof fn lemma_kept_cols_len(cols: Seq<Seq<int>>, n: int)
    requires
        0 <= n,
    ensures
        kept_cols(cols, n).len() <= n,
    decreases n,
{
    if n > 0 {
        lemma_kept_cols_len(cols, n - 1);
    }
}

/// Where the first `w` columns hold a piece and `n` is at least `w`, and the columns
/// from `w` to `n` are empty, the kept columns are the first `w`.
pub proof fn lemma_kept_cols_packed(cols: Seq<Seq<int>>, w: int, n: int)
    requires
        0 <= w <= n <= cols.len(),
        forall|c: int| 0 <= c < n ==> (c < w) == !col_is_blank(#[trigger] cols[c]),
    ensures
        kept_cols(cols, n) == cols.subrange(0, w),
    decreases n,
{
    if n > w {
        lemma_kept_cols_packed(cols, w, n - 1);
        assert(col_is_blank(cols[n - 1]));
    } else if n > 0 {
        lemma_kept_cols_packed(cols, w - 1, n - 1);
        assert(!col_is_blank(cols[n - 1]));
        assert(cols.subrange(0, w - 1).push(cols[n - 1]) =~= cols.subrange(0, w));
    } else {
        assert(cols.subrange(0, 0) =~= Seq::<Seq<int>>::empty());
    }
}

/// A blank column is the blank column.
pub proof fn lemma_blank_col(col: Seq<int>)
    requires
        col.len() == 6,
        col_is_blank(col),
    ensures
        col == blank_col(),
{
    assert(col =~= blank_col());
}

/// A grid with no empty column to the left of a column that holds a piece is left as
/// it is when its empty columns are taken out.
pub proof fn lemma_compact_packed(g: Seq<Seq<int>>, w: int)
    requires
        grid_shape(g),
        is_width(g, w),
    ensures
        compact(g) == g,
{
    lemma_kept_cols_packed(g, w, 8);
    assert forall|c: int| 0 <= c < 8 implies compact(g)[c] == g[c] by {
        if c >= w {
            lemma_blank_col(g[c]);
        }
    }
    assert(compact(g) =~= g);
}

/// Erasing no cell leaves a grid that a board can hold as it is.
pub proof fn lemma_erase_nothing(g: Seq<Seq<int>>, m: Set<(int, int)>)
    requires
        grid_ok(g),
        forall|p: (int, int)| in_grid(p) ==> !m.contains(p),
    ensures
        erase_grid(g, m) == g,
{
    assert forall|c: int| 0 <= c < 8 implies fallen(g, m)[c] == g[c] by {
        assert forall|r: int| 0 <= r < 6 implies !rows_in(m, c).contains(r) by {
            assert(in_grid((c, r)));
        }
        crate::bitcol::lemma_fall_none(g[c], rows_in(m, c));
    }
    assert(fallen(g, m) =~= g);
    let w = choose|w: int| is_width(g, w);
    lemma_compact_packed(g, w);
}

/// A grid has a move exactly if the cells of one kind hold two cells that share an edge.
pub proof fn lemma_has_move(g: Seq<Seq<int>>)
    requires
        grid_ok(g),
    ensures
        has_move(g) <==> exists|v: int| 1 <= v <= 5 && #[trigger] pair_in(cells_of(g, v)),
{
    if has_move(g) {
        let (a, b) = choose|a: (int, int), b: (int, int)|
            #[trigger] adjacent(a, b) && g[a.0][a.1] != 0 && g[a.0][a.1] == g[b.0][b.1];
        let v = g[a.0][a.1];
        assert(0 <= g[a.0][a.1] <= 5);
        assert(cells_of(g, v).contains(a) && cells_of(g, v).contains(b));
        assert(pair_in(cells_of(g, v)));
    }
    if exists|v: int| 1 <= v <= 5 && #[trigger] pair_in(cells_of(g, v)) {
        let v = choose|v: int| 1 <= v <= 5 && #[trigger] pair_in(cells_of(g, v));
        let s = cells_of(g, v);
        let (a, b) = choose|a: (int, int), b: (int, int)|
            #[trigger] adjacent(a, b) && s.contains(a) && s.contains(b);
        assert(adjacent(a, b) && g[a.0][a.1] != 0 && g[a.0][a.1] == g[b.0][b.1]);
    }
}

/// Whether no piece of the column stands above an empty cell.
pub open spec fn col_settled(col: Seq<int>) -> bool {
    forall|i: int, j: int| 0 <= i < j < 6 && col[i] == 0 ==> col[j] == 0
}

/// Whether no piece of the grid stands above an empty cell.
pub open spec fn settled(g: Seq<Seq<int>>) -> bool {
    forall|c: int| 0 <= c < 8 ==> col_settled(#[trigger] g[c])
}

/// The cells that stay of a column in which no piece stands above an empty cell are
/// cells of the column, and no piece among them comes after an empty cell.
pub proof fn lemma_kept_settled(col: Seq<int>, del: Set<int>, n: int)
    requires
        0 <= n <= 6,
        col_settled(col),
    ensures
        forall|a: int|
            0 <= a < kept_below(col, del, n).len() ==> exists|i: int|
                0 <= i < n && #[trigger] kept_below(col, del, n)[a] == col[i],
        forall|a: int, b: int|
            0 <= a < b < kept_below(col, del, n).len() && kept_below(col, del, n)[a] == 0
                ==> kept_below(col, del, n)[b] == 0,
    decreases n,
{
    if n > 0 {
        lemma_kept_settled(col, del, n - 1);
        let prev = kept_below(col, del, n - 1);
        let now = kept_below(col, del, n);
        assert forall|a: int| 0 <= a < now.len() implies exists|i: int|
            0 <= i < n && #[trigger] now[a] == col[i] by {
            if a < prev.len() {
                let i = choose|i: int| 0 <= i < n - 1 && prev[a] == col[i];
                assert(now[a] == col[i]);
            } else {
                assert(now[a] == col[n - 1]);
            }
        }
        assert forall|a: int, b: int| 0 <= a < b < now.len() && now[a] == 0 implies now[b]
            == 0 by {
            if b >= prev.len() {
                let i = choose|i: int| 0 <= i < n - 1 && prev[a] == col[i];
                assert(col[i] == 0);
                assert(now[b] == col[n - 1]);
            }
        }
    }
}

/// Pieces that fall come to rest: in the fallen column no piece stands above an empty
/// cell.
pub proof fn lemma_fall_settled(col: Seq<int>, del: Set<int>)
    requires
        col_settled(col),
    ensures
        col_settled(fall(col, del)),
{
    lemma_kept_settled(col, del, 6);
    lemma_kept_below_len(col, del, 6);
}

/// An erasure keeps the pieces at rest: where no piece stands above an empty cell
/// before it, none does after it.
pub proof fn lemma_erase_settled(g: Seq<Seq<int>>, m: Set<(int, int)>)
    requires
        settled(g),
        g.len() == 8,
    ensures
        settled(erase_grid(g, m)),
{
    let f = fallen(g, m);
    assert forall|c: int| 0 <= c < 8 implies col_settled(#[trigger] f[c]) by {
        assert(col_settled(g[c]));
        lemma_fall_settled(g[c], rows_in(m, c));
    }
    lemma_kept_cols_len(f, 8);
    let kept = kept_cols(f, 8);
    lemma_kept_cols_are_cols(f, 8);
    let e = erase_grid(g, m);
    assert forall|c: int| 0 <= c < 8 implies col_settled(#[trigger] e[c]) by {
        if c < kept.len() {
            let j = choose|j: int| 0 <= j < 8 && #[trigger] kept[c] == f[j];
            assert(col_settled(f[j]));
        }
    }
}

/// Every kept column is one of the columns.
pub proof fn lemma_kept_cols_are_cols(cols: Seq<Seq<int>>, n: int)
    requires
        0 <= n,
    ensures
        forall|i: int|
            0 <= i < kept_cols(cols, n).len() ==> exists|j: int|
                0 <= j < n && #[trigger] kept_cols(cols, n)[i] == cols[j],
    decreases n,
{
    if n > 0 {
        lemma_kept_cols_are_cols(cols, n - 1);
        let prev = kept_cols(cols, n - 1);
        let now = kept_cols(cols, n);
        assert forall|i: int| 0 <= i < now.len() implies exists|j: int|
            0 <= j < n && #[trigger] now[i] == cols[j] by {
            if i < prev.len() {
                let j = choose|j: int| 0 <= j < n - 1 && prev[i] == cols[j];
                assert(now[i] == cols[j]);
            } else {
                assert(now[i] == cols[n - 1]);
            }
        }
    }
}

} // verus!
