//! How many pieces of each kind an erasure leaves.

use vstd::prelude::*;
use crate::bitcol::{fall, kept_below, lemma_kept_below_len};
use crate::grid::{cell_count, col_count, count_below, in_grid, indicator, lemma_count_below_all};
use crate::rules::{
    cells_of, col_is_blank, compact, count_pieces, count_value, erase_grid, fallen, grid_shape,
    kept_cols, lemma_kept_cols_len, occupied, rows_in,
};

verus! {

/// The number of the first `n` cells of the column that hold `v`.
pub open spec fn held_below(col: Seq<int>, v: int, n: int) -> int
    decreases n,
{
    if n <= 0 {
        0
    } else {
        held_below(col, v, n - 1) + if col[n - 1] == v {
            1int
        } else {
            0
        }
    }
}

/// The number of the first `n` cells of the column that hold `v` and whose row is not
/// in `del`.
pub open spec fn spared_below(col: Seq<int>, del: Set<int>, v: int, n: int) -> int
    decreases n,
{
    if n <= 0 {
        0
    } else {
        spared_below(col, del, v, n - 1) + if col[n - 1] == v && !del.contains(n - 1) {
            1int
        } else {
            0
        }
    }
}

/// The number of cells of the first `n` columns that hold `v`.
pub open spec fn held_in_cols(cols: Seq<Seq<int>>, v: int, n: int) -> int
    decreases n,
{
    if n <= 0 {
        0
    } else {
        held_in_cols(cols, v, n - 1) + held_below(cols[n - 1], v, 6)
    }
}

/// Columns that agree in their first `n` cells hold `v` equally often there.
pub proof fn lemma_held_below_agree(a: Seq<int>, b: Seq<int>, v: int, n: int)
    requires
        forall|i: int| 0 <= i < n ==> a[i] == b[i],
    ensures
        held_below(a, v, n) == held_below(b, v, n),
    decreases n,
{
    if n > 0 {
        lemma_held_below_agree(a, b, v, n - 1);
    }
}

/// Grids that agree in their first `n` columns hold `v` equally often there.
pub proof fn lemma_held_in_cols_agree(a: Seq<Seq<int>>, b: Seq<Seq<int>>, v: int, n: int)
    requires
        forall|i: int| 0 <= i < n ==> a[i] == b[i],
    ensures
        held_in_cols(a, v, n) == held_in_cols(b, v, n),
    decreases n,
{
    if n > 0 {
        lemma_held_in_cols_agree(a, b, v, n - 1);
    }
}

/// The cells that stay hold `v` as often as the cells that are spared do.
pub proof fn lemma_kept_holds(col: Seq<int>, del: Set<int>, v: int, n: int)
    requires
        0 <= n,
    ensures
        held_below(kept_below(col, del, n), v, kept_below(col, del, n).len() as int)
            == spared_below(col, del, v, n),
    decreases n,
{
    if n > 0 {
        lemma_kept_holds(col, del, v, n - 1);
        let prev = kept_below(col, del, n - 1);
        if !del.contains(n - 1) {
            let now = prev.push(col[n - 1]);
            lemma_held_below_agree(now, prev, v, prev.len() as int);
        }
    }
}

/// Empty cells above the first `k` cells do not add to the cells that hold a piece of
/// the kind `v`.
pub proof fn lemma_held_below_padding(col: Seq<int>, v: int, k: int, n: int)
    requires
        0 <= k <= n,
        v != 0,
        forall|i: int| k <= i < n ==> col[i] == 0,
    ensures
        held_below(col, v, n) == held_below(col, v, k),
    decreases n,
{
    if n > k {
        lemma_held_below_padding(col, v, k, n - 1);
    }
}

/// A fallen column holds a piece of the kind `v` as often as the column does in the
/// rows that are spared.
pub proof fn lemma_fall_holds(col: Seq<int>, del: Set<int>, v: int)
    requires
        v != 0,
    ensures
        held_below(fall(col, del), v, 6) == spared_below(col, del, v, 6),
{
    let kept = kept_below(col, del, 6);
    let f = fall(col, del);
    lemma_kept_below_len(col, del, 6);
    lemma_kept_holds(col, del, v, 6);
    lemma_held_below_padding(f, v, kept.len() as int, 6);
    lemma_held_below_agree(f, kept, v, kept.len() as int);
}

/// An empty column holds no piece.
pub proof fn lemma_blank_holds_none(col: Seq<int>, v: int)
    requires
        v != 0,
        col_is_blank(col),
    ensures
        held_below(col, v, 6) == 0,
{
    assert(col[0] == 0 && col[1] == 0 && col[2] == 0 && col[3] == 0 && col[4] == 0 && col[5] == 0);
    reveal_with_fuel(held_below, 7);
}

/// The columns that are kept hold a piece of the kind `v` as often as all the columns.
pub proof fn lemma_kept_cols_hold(cols: Seq<Seq<int>>, v: int, n: int)
    requires
        0 <= n,
        v != 0,
    ensures
        held_in_cols(kept_cols(cols, n), v, kept_cols(cols, n).len() as int) == held_in_cols(
            cols,
            v,
            n,
        ),
    decreases n,
{
    if n > 0 {
        lemma_kept_cols_hold(cols, v, n - 1);
        let prev = kept_cols(cols, n - 1);
        if col_is_blank(cols[n - 1]) {
            lemma_blank_holds_none(cols[n - 1], v);
        } else {
            let now = prev.push(cols[n - 1]);
            lemma_held_in_cols_agree(now, prev, v, prev.len() as int);
        }
    }
}

/// Empty columns to the right of the first `k` columns do not add to the cells that
/// hold a piece of the kind `v`.
pub proof fn lemma_held_in_cols_padding(cols: Seq<Seq<int>>, v: int, k: int, n: int)
    requires
        0 <= k <= n,
        v != 0,
        forall|c: int| k <= c < n ==> col_is_blank(#[trigger] cols[c]),
    ensures
        held_in_cols(cols, v, n) == held_in_cols(cols, v, k),
    decreases n,
{
    if n > k {
        lemma_held_in_cols_padding(cols, v, k, n - 1);
        lemma_blank_holds_none(cols[n - 1], v);
    }
}

/// Taking the empty columns out leaves as many pieces of the kind `v` as there were.
pub proof fn lemma_compact_holds(cols: Seq<Seq<int>>, v: int)
    requires
        v != 0,
    ensures
        held_in_cols(compact(cols), v, 8) == held_in_cols(cols, v, 8),
{
    let kept = kept_cols(cols, 8);
    let out = compact(cols);
    lemma_kept_cols_len(cols, 8);
    lemma_kept_cols_hold(cols, v, 8);
    assert forall|c: int| kept.len() <= c < 8 implies col_is_blank(#[trigger] out[c]) by {}
    lemma_held_in_cols_padding(out, v, kept.len() as int, 8);
    lemma_held_in_cols_agree(out, kept, v, kept.len() as int);
}

/// The cells of column `c` of a grid that hold `v` are counted cell by cell.
pub proof fn lemma_col_count_held(g: Seq<Seq<int>>, v: int, c: int)
    requires
        0 <= c < 8,
    ensures
        col_count(cells_of(g, v), c) == held_below(g[c], v, 6),
{
    reveal_with_fuel(held_below, 7);
    assert forall|r: int| 0 <= r < 6 implies indicator(cells_of(g, v), (c, r)) == if g[c][r] == v {
        1int
    } else {
        0
    } by {
        assert(in_grid((c, r)));
    }
}

/// The cells of a grid that hold `v` are counted column by column.
pub proof fn lemma_count_held(g: Seq<Seq<int>>, v: int, n: int)
    requires
        0 <= n <= 8,
    ensures
        count_below(cells_of(g, v), n) == held_in_cols(g, v, n),
    decreases n,
{
    if n > 0 {
        lemma_count_held(g, v, n - 1);
        lemma_col_count_held(g, v, n - 1);
    }
}

/// The cells of column `c` that hold `v` and are spared are counted cell by cell.
pub proof fn lemma_col_count_spared(g: Seq<Seq<int>>, m: Set<(int, int)>, v: int, c: int)
    requires
        0 <= c < 8,
    ensures
        col_count(cells_of(g, v).difference(m), c) == spared_below(g[c], rows_in(m, c), v, 6),
{
    reveal_with_fuel(spared_below, 7);
    assert forall|r: int| 0 <= r < 6 implies indicator(cells_of(g, v).difference(m), (c, r)) == if g[c][r]
        == v && !rows_in(m, c).contains(r) {
        1int
    } else {
        0
    } by {
        assert(in_grid((c, r)));
    }
}

/// The pieces of the kind `v` that the fallen grid holds in its first `n` columns are
/// the pieces of that kind that are spared there.
pub proof fn lemma_fallen_holds(g: Seq<Seq<int>>, m: Set<(int, int)>, v: int, n: int)
    requires
        0 <= n <= 8,
        v != 0,
    ensures
        held_in_cols(fallen(g, m), v, n) == count_below(cells_of(g, v).difference(m), n),
    decreases n,
{
    if n > 0 {
        lemma_fallen_holds(g, m, v, n - 1);
        lemma_fall_holds(g[n - 1], rows_in(m, n - 1), v);
        lemma_col_count_spared(g, m, v, n - 1);
    }
}

/// An erasure leaves the pieces of each kind that it spares: the board holds as
/// many pieces of the kind `v` after it as it held outside the erased cells.
pub proof fn lemma_erase_count(g: Seq<Seq<int>>, m: Set<(int, int)>, v: int)
    requires
        v != 0,
    ensures
        count_value(erase_grid(g, m), v) == cell_count(cells_of(g, v).difference(m)),
{
    lemma_count_below_all(cells_of(erase_grid(g, m), v));
    lemma_count_held(erase_grid(g, m), v, 8);
    lemma_compact_holds(fallen(g, m), v);
    lemma_fallen_holds(g, m, v, 8);
    lemma_count_below_all(cells_of(g, v).difference(m));
}

/// A move takes its cells from the pieces of its kind and leaves the other kinds as
/// they are.
pub proof fn lemma_erase_kind(g: Seq<Seq<int>>, m: Set<(int, int)>, p: int, v: int)
    requires
        p != 0,
        v != 0,
        forall|a: (int, int)| m.contains(a) ==> cells_of(g, p).contains(a),
    ensures
        count_value(erase_grid(g, m), v) == if v == p {
            count_value(g, p) - cell_count(m)
        } else {
            count_value(g, v)
        },
{
    lemma_erase_count(g, m, v);
    reveal(cell_count);
    let s = cells_of(g, v);
    let d = s.difference(m);
    if v == p {
        assert forall|c: int| 0 <= c < 8 implies #[trigger] col_count(d, c) == col_count(s, c)
            - col_count(m, c) by {
            assert forall|r: int| 0 <= r < 6 implies indicator(d, (c, r)) == indicator(s, (c, r))
                - #[trigger] indicator(m, (c, r)) by {}
        }
    } else {
        assert forall|c: int| 0 <= c < 8 implies #[trigger] col_count(d, c) == col_count(s, c) by {
            assert forall|r: int| 0 <= r < 6 implies #[trigger] indicator(d, (c, r)) == indicator(
                s,
                (c, r),
            ) by {
                if m.contains((c, r)) {
                    assert(cells_of(g, p).contains((c, r)));
                }
            }
        }
    }
}

/// The pieces of a grid are the pieces of its five kinds.
pub proof fn lemma_pieces_sum(g: Seq<Seq<int>>)
    requires
        forall|c: int, r: int| 0 <= c < 8 && 0 <= r < 6 ==> 0 <= #[trigger] g[c][r] <= 5,
    ensures
        count_pieces(g) == count_value(g, 1) + count_value(g, 2) + count_value(g, 3) + count_value(
            g,
            4,
        ) + count_value(g, 5),
{
    reveal(cell_count);
    assert forall|c: int| 0 <= c < 8 implies #[trigger] col_count(occupied(g), c) == col_count(
        cells_of(g, 1),
        c,
    ) + col_count(cells_of(g, 2), c) + col_count(cells_of(g, 3), c) + col_count(cells_of(g, 4), c)
        + col_count(cells_of(g, 5), c) by {
        assert forall|r: int| 0 <= r < 6 implies #[trigger] indicator(occupied(g), (c, r))
            == indicator(cells_of(g, 1), (c, r)) + indicator(cells_of(g, 2), (c, r)) + indicator(
            cells_of(g, 3),
            (c, r),
        ) + indicator(cells_of(g, 4), (c, r)) + indicator(cells_of(g, 5), (c, r)) by {
            assert(in_grid((c, r)));
            assert(0 <= g[c][r] <= 5);
        }
    }
}

/// A move takes its cells from the pieces of the grid.
pub proof fn lemma_erase_pieces(g: Seq<Seq<int>>, m: Set<(int, int)>, p: int)
    requires
        grid_shape(g),
        forall|c: int, r: int| 0 <= c < 8 && 0 <= r < 6 ==> 0 <= #[trigger] g[c][r] <= 5,
        forall|c: int, r: int|
            0 <= c < 8 && 0 <= r < 6 ==> 0 <= #[trigger] erase_grid(g, m)[c][r] <= 5,
        1 <= p <= 5,
        forall|a: (int, int)| m.contains(a) ==> cells_of(g, p).contains(a),
    ensures
        count_pieces(erase_grid(g, m)) == count_pieces(g) - cell_count(m),
{
    lemma_pieces_sum(g);
    lemma_pieces_sum(erase_grid(g, m));
    lemma_erase_kind(g, m, p, 1);
    lemma_erase_kind(g, m, p, 2);
    lemma_erase_kind(g, m, p, 3);
    lemma_erase_kind(g, m, p, 4);
    lemma_erase_kind(g, m, p, 5);
}

} // verus!
