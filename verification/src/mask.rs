//! Masks: sets of cells of the grid, one bit-column per column.

use vstd::prelude::*;
use crate::bitcol::BitCol;
use crate::grid::{
    adjacent, cell_count, cell_index, closed_in, col_count, component, connected, count_below,
    grid_subset, in_grid, indicator, is_least, lemma_closed_minus_component,
    lemma_component_in_closed, lemma_component_is, lemma_component_same, lemma_connected_in,
    lemma_connected_refl, lemma_connected_step, lemma_count_below_all, lemma_count_range,
    lemma_count_subset,
};
use crate::square::{Col, Row, Square};

verus! {

/// Whether bit `c` of the column mask `m` is set.
pub closed spec fn col_bit(m: u32, c: int) -> bool {
    (m >> (c as u32)) & 1 == 1
}

/// Setting and clearing a bit of a column mask changes that bit and no other.
proof fn bv_col_set(m: u32, i: u32, j: u32)
    by (bit_vector)
    requires
        m < 256,
        i < 8,
        j < 8,
    ensures
        (m | (1u32 << i)) < 256,
        (m & !(1u32 << i)) < 256,
        (1u32 << i) < 256,
        ((m | (1u32 << i)) >> j) & 1 == 1 <==> (j == i || (m >> j) & 1 == 1),
        ((m & !(1u32 << i)) >> j) & 1 == 1 <==> (j != i && (m >> j) & 1 == 1),
        ((1u32 << i) >> j) & 1 == 1 <==> j == i,
{
}

/// Column masks below 256 with the same eight bits are the same.
proof fn bv_col_ext(m: u32, n: u32)
    by (bit_vector)
    requires
        m < 256,
        n < 256,
        ((m >> 0) & 1 == 1) == ((n >> 0) & 1 == 1),
        ((m >> 1) & 1 == 1) == ((n >> 1) & 1 == 1),
        ((m >> 2) & 1 == 1) == ((n >> 2) & 1 == 1),
        ((m >> 3) & 1 == 1) == ((n >> 3) & 1 == 1),
        ((m >> 4) & 1 == 1) == ((n >> 4) & 1 == 1),
        ((m >> 5) & 1 == 1) == ((n >> 5) & 1 == 1),
        ((m >> 6) & 1 == 1) == ((n >> 6) & 1 == 1),
        ((m >> 7) & 1 == 1) == ((n >> 7) & 1 == 1),
    ensures
        m == n,
{
}

/// The column mask 0 has no bit.
proof fn bv_col_zero(j: u32)
    by (bit_vector)
    requires
        j < 8,
    ensures
        (0u32 >> j) & 1 == 0,
{
}

/// Two column masks below 256 with the same bits are the same.
proof fn lemma_col_ext(m: u32, n: u32)
    requires
        m < 256,
        n < 256,
        forall|c: int| 0 <= c < 8 ==> col_bit(m, c) == col_bit(n, c),
    ensures
        m == n,
{
    assert(col_bit(m, 0) == col_bit(n, 0));
    assert(col_bit(m, 1) == col_bit(n, 1));
    assert(col_bit(m, 2) == col_bit(n, 2));
    assert(col_bit(m, 3) == col_bit(n, 3));
    assert(col_bit(m, 4) == col_bit(n, 4));
    assert(col_bit(m, 5) == col_bit(n, 5));
    assert(col_bit(m, 6) == col_bit(n, 6));
    assert(col_bit(m, 7) == col_bit(n, 7));
    bv_col_ext(m, n);
}

/// The column mask 0 has no bit set, and it is the only one below 256.
proof fn lemma_col_zero(m: u32)
    requires
        m < 256,
    ensures
        forall|c: int| 0 <= c < 8 ==> !col_bit(0, c),
        m == 0 <==> forall|c: int| 0 <= c < 8 ==> !col_bit(m, c),
{
    assert forall|c: int| 0 <= c < 8 implies !col_bit(0, c) by {
        bv_col_zero(c as u32);
    }
    if forall|c: int| 0 <= c < 8 ==> !col_bit(m, c) {
        lemma_col_ext(m, 0);
    }
}

/// The column mask `m` with bit `i` set.
fn col_mask_with(m: u32, i: usize) -> (res: u32)
    requires
        m < 256,
        i < 8,
    ensures
        res < 256,
        forall|c: int| 0 <= c < 8 ==> #[trigger] col_bit(res, c) == (c == i || col_bit(m, c)),
{
    proof {
        bv_col_set(m, i as u32, 0);
    }
    let res: u32 = m | (1u32 << (i as u32));
    proof {
        assert forall|c: int| 0 <= c < 8 implies #[trigger] col_bit(res, c) == (c == i || col_bit(
            m,
            c,
        )) by {
            bv_col_set(m, i as u32, c as u32);
        }
    }
    res
}

/// The column mask `m` with bit `i` cleared.
fn col_mask_without(m: u32, i: usize) -> (res: u32)
    requires
        m < 256,
        i < 8,
    ensures
        res < 256,
        forall|c: int| 0 <= c < 8 ==> #[trigger] col_bit(res, c) == (c != i && col_bit(m, c)),
{
    proof {
        bv_col_set(m, i as u32, 0);
    }
    let res: u32 = m & !(1u32 << (i as u32));
    proof {
        assert forall|c: int| 0 <= c < 8 implies #[trigger] col_bit(res, c) == (c != i && col_bit(
            m,
            c,
        )) by {
            bv_col_set(m, i as u32, c as u32);
        }
    }
    res
}

/// Whether bit `i` of the column mask `m` is set.
fn col_mask_test(m: u32, i: usize) -> (res: bool)
    requires
        i < 8,
    ensures
        res == col_bit(m, i as int),
{
    (m >> (i as u32)) & 1 == 1
}

/// Whether the eight columns are masks and `col_mask` has exactly the bits of the
/// columns that are not blank.
pub open spec fn cols_wf(cols: [BitCol; 8], col_mask: u32) -> bool {
    &&& col_mask < 256
    &&& forall|c: int| 0 <= c < 8 ==> (#[trigger] cols[c]).wf() && cols[c].is_mask()
    &&& forall|c: int| 0 <= c < 8 ==> col_bit(col_mask, c) == !(#[trigger] cols[c]).is_blank()
}

/// The cells that the eight columns mark.
pub open spec fn cols_set(cols: [BitCol; 8]) -> Set<(int, int)> {
    Set::new(|p: (int, int)| in_grid(p) && cols[p.0].has(p.1))
}

/// A set of cells of the grid.
///
/// Each column is a bit-column whose cells are 0 or 1, and the column mask has bit
/// `i` set exactly if column `i` marks a cell.
#[derive(Clone, Copy, Debug, PartialEq, Eq)]
pub struct MaskBoard {
    cols: [BitCol; 8],
    col_mask: u32,
}

impl View for MaskBoard {
    type V = Set<(int, int)>;

    /// The cells of the mask, each a pair of 0-based column and row.
    closed spec fn view(&self) -> Set<(int, int)> {
        cols_set(self.cols)
    }
}

impl MaskBoard {
    /// Whether the mask is well-formed: every cell of its columns is 0 or 1, and the
    /// column mask has exactly the bits of the columns that hold a cell.
    #[verifier::type_invariant]
    pub closed spec fn wf(self) -> bool {
        cols_wf(self.cols, self.col_mask)
    }

    /// The column mask: bit `i` stands for column `i`.
    pub closed spec fn col_mask_spec(self) -> u32 {
        self.col_mask
    }

    /// Whether the mask holds the cell of `sq`.
    pub open spec fn contains(self, sq: Square) -> bool {
        self@.contains(sq.cell())
    }

    /// Whether the mask holds a cell of column `c`.
    pub open spec fn col_used(self, c: int) -> bool {
        exists|r: int| 0 <= r < 6 && self@.contains((c, r))
    }

    /// The number of cells of the mask.
    pub open spec fn count(self) -> int {
        cell_count(self@)
    }

    /// A mask holds cells of the grid only.
    pub broadcast proof fn lemma_in_grid(self, p: (int, int))
        ensures
            #[trigger] self@.contains(p) ==> in_grid(p),
    {
    }

    /// The column mask of a well-formed mask has exactly the bits of the columns used,
    /// and none above bit 7.
    pub proof fn lemma_col_mask(self)
        requires
            self.wf(),
        ensures
            self.col_mask_spec() < 256,
            forall|c: int| 0 <= c < 8 ==> col_bit(self.col_mask_spec(), c) == self.col_used(c),
    {
        assert forall|c: int| 0 <= c < 8 implies col_bit(self.col_mask_spec(), c) == self.col_used(
            c,
        ) by {
            self.lemma_col_used(c);
        }
    }

    /// The mask holds a cell of column `c` exactly if the bit-column of that column is
    /// not blank.
    proof fn lemma_col_used(self, c: int)
        requires
            0 <= c < 8,
        ensures
            self.col_used(c) == !self.cols[c].is_blank(),
    {
        if !self.cols[c].is_blank() {
            let r = choose|r: int| 0 <= r < 6 && self.cols[c].cell(r) != 0;
            assert(self@.contains((c, r)));
        }
    }

    /// Two well-formed masks with the same cells are the same mask.
    pub proof fn lemma_ext(self, other: MaskBoard)
        requires
            self.wf(),
            other.wf(),
            self@ == other@,
        ensures
            self == other,
    {
        assert forall|c: int| 0 <= c < 8 implies self.cols[c] == other.cols[c] by {
            assert forall|r: int| 0 <= r < 6 implies self.cols[c].cell(r) == other.cols[c].cell(
                r,
            ) by {
                assert(in_grid((c, r)));
                assert(self@.contains((c, r)) == self.cols[c].has(r));
                assert(other@.contains((c, r)) == other.cols[c].has(r));
                assert(self.cols[c].is_mask());
                assert(other.cols[c].is_mask());
                assert(0 <= self.cols[c].cell(r) <= 1);
                assert(0 <= other.cols[c].cell(r) <= 1);
            }
            self.cols[c].lemma_ext(other.cols[c]);
        }
        assert(self.cols =~= other.cols);
        assert forall|c: int| 0 <= c < 8 implies col_bit(self.col_mask, c) == col_bit(
            other.col_mask,
            c,
        ) by {
            assert(self.cols[c] == other.cols[c]);
        }
        lemma_col_ext(self.col_mask, other.col_mask);
    }

    /// The bit-column of the column of index `c`: it marks the rows of the cells of
    /// that column.
    pub fn col_bits(&self, c: usize) -> (res: BitCol)
        requires
            c < 8,
        ensures
            res.wf(),
            res.is_mask(),
            forall|r: int| 0 <= r < 6 ==> #[trigger] res.has(r) == self@.contains((c as int, r)),
    {
        proof {
            use_type_invariant(self);
            assert forall|r: int| 0 <= r < 6 implies #[trigger] self.cols[c as int].has(r)
                == self@.contains((c as int, r)) by {
                assert(in_grid((c as int, r)));
            }
        }
        self.cols[c]
    }

    /// The mask whose columns are the eight given bit-columns.
    pub fn from_cols(cols: [BitCol; 8]) -> (res: MaskBoard)
        requires
            forall|c: int| 0 <= c < 8 ==> (#[trigger] cols[c]).is_mask(),
        ensures
            res.wf(),
            res@ == cols_set(cols),
    {
        let mut col_mask: u32 = 0;
        let mut c: usize = 0;
        proof {
            lemma_col_zero(0);
        }
        while c < 8
            invariant
                0 <= c <= 8,
                col_mask < 256,
                forall|k: int|
                    0 <= k < 8 ==> #[trigger] col_bit(col_mask, k) == (k < c && !cols[k].is_blank()),
                forall|k: int| 0 <= k < c ==> (#[trigger] cols[k]).wf(),
            decreases 8 - c,
        {
            let bc = cols[c];
            proof {
                use_type_invariant(&bc);
            }
            if !bc.is_zero() {
                col_mask = col_mask_with(col_mask, c);
            }
            c = c + 1;
        }
        MaskBoard { cols, col_mask }
    }

    /// The empty mask.
    pub fn empty() -> (res: MaskBoard)
        ensures
            res.wf(),
            res@ == Set::<(int, int)>::empty(),
    {
        let cols: [BitCol; 8] = [BitCol::zero(); 8];
        proof {
            lemma_col_zero(0);
            assert(cols_set(cols) =~= Set::<(int, int)>::empty());
        }
        MaskBoard { cols, col_mask: 0 }
    }

    /// The mask that holds the cell of `sq` and no other.
    pub fn single(sq: Square) -> (res: MaskBoard)
        ensures
            res.wf(),
            res@ == set![sq.cell()],
    {
        let mut cols: [BitCol; 8] = [BitCol::zero(); 8];
        let c: usize = sq.col().to_index();
        let mut bc = BitCol::zero();
        bc.set(sq.row(), 1);
        cols[c] = bc;
        let col_mask: u32 = col_mask_with(0, c);
        proof {
            lemma_col_zero(0);
            assert(cols[c as int].cell(sq.row_index()) == 1);
            assert(cols_set(cols) =~= set![sq.cell()]);
            assert forall|k: int| 0 <= k < 8 implies col_bit(col_mask, k) == !(
            #[trigger] cols[k]).is_blank() by {
                if k != c {
                    assert(cols[k].is_blank());
                }
            }
        }
        MaskBoard { cols, col_mask }
    }

    /// Whether the mask holds the cell of `sq`.
    pub fn test(&self, sq: Square) -> (res: bool)
        ensures
            res == self.contains(sq),
    {
        proof {
            use_type_invariant(&sq);
            sq.lemma_cell();
        }
        self.cols[sq.col().to_index()].get(sq.row()) != 0
    }

    /// Puts the cell of `sq` into the mask or takes it out.
    pub fn set(&mut self, sq: Square, value: bool)
        ensures
            final(self).wf(),
            final(self)@ == if value {
                old(self)@.insert(sq.cell())
            } else {
                old(self)@.remove(sq.cell())
            },
    {
        proof {
            use_type_invariant(&*self);
            use_type_invariant(&sq);
            sq.lemma_cell();
        }
        let c: usize = sq.col().to_index();
        let mut cols: [BitCol; 8] = self.cols;
        let mut bc = cols[c];
        bc.set(sq.row(), if value { 1 } else { 0 });
        cols[c] = bc;
        let col_mask: u32 = if bc.is_zero() {
            col_mask_without(self.col_mask, c)
        } else {
            col_mask_with(self.col_mask, c)
        };
        proof {
            let goal = if value {
                self@.insert(sq.cell())
            } else {
                self@.remove(sq.cell())
            };
            assert forall|p: (int, int)| cols_set(cols).contains(p) == goal.contains(p) by {
                if in_grid(p) {
                    if p.0 == c {
                        assert(cols[p.0] == bc);
                    } else {
                        assert(cols[p.0] == self.cols[p.0]);
                    }
                }
            }
            assert(cols_set(cols) =~= goal);
            assert forall|k: int| 0 <= k < 8 implies (#[trigger] cols[k]).wf() && cols[k].is_mask()
                && col_bit(col_mask, k) == !cols[k].is_blank() by {
                if k != c {
                    assert(cols[k] == self.cols[k]);
                }
            }
        }
        *self = MaskBoard { cols, col_mask };
    }

    /// Whether the mask holds no cell.
    pub fn is_empty(&self) -> (res: bool)
        ensures
            res == (self@ == Set::<(int, int)>::empty()),
    {
        proof {
            use_type_invariant(self);
            lemma_col_zero(self.col_mask);
            if self.col_mask == 0 {
                assert(self@ =~= Set::<(int, int)>::empty());
            } else {
                let c = choose|c: int| 0 <= c < 8 && col_bit(self.col_mask, c);
                let r = choose|r: int| 0 <= r < 6 && self.cols[c].cell(r) != 0;
                assert(self@.contains((c, r)));
            }
        }
        self.col_mask == 0
    }
}

/// What holds of the columns of a flood fill at every moment: they are masks, they hold
/// the seed `a`, and a walk inside `s` leads from `a` to each of their cells.
pub open spec fn fill_state(s: Set<(int, int)>, a: (int, int), bcs: [BitCol; 8]) -> bool {
    &&& forall|c: int| 0 <= c < 8 ==> (#[trigger] bcs[c]).wf() && bcs[c].is_mask()
    &&& cols_set(bcs).contains(a)
    &&& forall|p: (int, int)| #[trigger] cols_set(bcs).contains(p) ==> connected(s, a, p)
}

/// Column `k` holds, with each of its cells, the cells of `s` just above and below it.
pub open spec fn closed_vertical(s: Set<(int, int)>, bcs: [BitCol; 8], k: int) -> bool {
    forall|r: int|
        0 <= r < 6 && s.contains((k, r)) && ((r > 0 && bcs[k].has(r - 1)) || (r < 5 && bcs[k].has(
            r + 1,
        ))) ==> #[trigger] bcs[k].has(r)
}

/// Column `k - 1` holds the cells of `s` to the left of the cells of column `k`.
pub open spec fn closed_left(s: Set<(int, int)>, bcs: [BitCol; 8], k: int) -> bool {
    forall|r: int|
        0 <= r < 6 && #[trigger] bcs[k].has(r) && s.contains((k - 1, r)) ==> bcs[k - 1].has(r)
}

/// Column `k` holds the cells of `s` to the right of the cells of column `k - 1`.
pub open spec fn closed_right(s: Set<(int, int)>, bcs: [BitCol; 8], k: int) -> bool {
    forall|r: int|
        0 <= r < 6 && #[trigger] bcs[k - 1].has(r) && s.contains((k, r)) ==> bcs[k].has(r)
}

/// Puts `bc` in the place of column `c` where it differs from it, and says whether it did.
fn fill_put(
    bcs: [BitCol; 8],
    c: usize,
    bc: BitCol,
    Ghost(s): Ghost<Set<(int, int)>>,
    Ghost(a): Ghost<(int, int)>,
) -> (res: ([BitCol; 8], bool))
    requires
        c < 8,
        fill_state(s, a, bcs),
        bc.wf(),
        bc.is_mask(),
        forall|r: int| 0 <= r < 6 && #[trigger] bcs[c as int].has(r) ==> bc.has(r),
        forall|r: int|
            0 <= r < 6 && #[trigger] bc.has(r) && !bcs[c as int].has(r) ==> s.contains(
                (c as int, r),
            ) && (cols_set(bcs).contains((c - 1, r)) || cols_set(bcs).contains((c + 1, r))
                || cols_set(bcs).contains((c as int, r - 1)) || cols_set(bcs).contains(
                (c as int, r + 1),
            )),
    ensures
        fill_state(s, a, res.0),
        res.1 == (bc != bcs[c as int]),
        !res.1 ==> res.0 == bcs,
        res.1 ==> res.0@ == bcs@.update(c as int, bc),
        res.1 ==> cell_count(cols_set(res.0)) > cell_count(cols_set(bcs)),
        forall|m: u32, lo: int, hi: int|
            #![trigger cols_wf(bcs, m), fill_window(bcs, lo, hi)]
            cols_wf(bcs, m) && fill_window(bcs, lo, hi) && lo <= c <= hi ==> cols_wf(res.0, m)
                && fill_window(res.0, lo, hi),
{
    if bc != bcs[c] {
        let mut out: [BitCol; 8] = bcs;
        out[c] = bc;
        proof {
            assert forall|k: int| 0 <= k < 8 implies (#[trigger] out[k]).wf() && out[k].is_mask() by {
                if k != c {
                    assert(out[k] == bcs[k]);
                }
            }
            assert(cols_set(out).contains(a)) by {
                assert(cols_set(bcs).contains(a));
                if a.0 != c {
                    assert(out[a.0] == bcs[a.0]);
                }
            }
            assert forall|p: (int, int)| #[trigger] cols_set(out).contains(p) implies connected(
                s,
                a,
                p,
            ) by {
                if p.0 != c {
                    assert(out[p.0] == bcs[p.0]);
                    assert(cols_set(bcs).contains(p));
                } else if bcs[c as int].has(p.1) {
                    assert(cols_set(bcs).contains(p));
                } else {
                    let r = p.1;
                    assert(bc.has(r));
                    let q: (int, int) = if cols_set(bcs).contains((c - 1, r)) {
                        (c - 1, r)
                    } else if cols_set(bcs).contains((c + 1, r)) {
                        (c + 1, r)
                    } else if cols_set(bcs).contains((c as int, r - 1)) {
                        (c as int, r - 1)
                    } else {
                        (c as int, r + 1)
                    };
                    assert(cols_set(bcs).contains(q));
                    assert(adjacent(q, p));
                    lemma_connected_step(s, a, q, p);
                }
            }
            assert(grid_subset(cols_set(bcs), cols_set(out))) by {
                assert forall|k: int, r: int|
                    0 <= k < 8 && 0 <= r < 6 && cols_set(bcs).contains((k, r)) implies cols_set(
                    out,
                ).contains((k, r)) by {
                    if k != c {
                        assert(out[k] == bcs[k]);
                    }
                }
            }
            if forall|r: int| 0 <= r < 6 ==> bc.has(r) == bcs[c as int].has(r) {
                bc.lemma_mask_ext(bcs[c as int]);
            }
            let r = choose|r: int| 0 <= r < 6 && bc.has(r) != bcs[c as int].has(r);
            assert(cols_set(out).contains((c as int, r)));
            assert(!cols_set(bcs).contains((c as int, r)));
            lemma_count_subset(cols_set(bcs), cols_set(out));
            assert forall|m: u32, lo: int, hi: int|
                #![trigger cols_wf(bcs, m), fill_window(bcs, lo, hi)]
                cols_wf(bcs, m) && fill_window(bcs, lo, hi) && lo <= c <= hi implies cols_wf(out, m)
                && fill_window(out, lo, hi) by {
                assert forall|k: int| 0 <= k < 8 implies (#[trigger] out[k]).is_blank()
                    == bcs[k].is_blank() by {
                    if k == c {
                        let q = choose|q: int| 0 <= q < 6 && bcs[k].cell(q) != 0;
                        assert(bcs[k].has(q));
                        assert(bc.has(q));
                    } else {
                        assert(out[k] == bcs[k]);
                    }
                }
            }
        }
        (out, true)
    } else {
        (bcs, false)
    }
}

/// The columns `lo` to `hi` are the ones that hold a cell.
pub open spec fn fill_window(bcs: [BitCol; 8], lo: int, hi: int) -> bool {
    &&& 0 <= lo <= hi < 8
    &&& forall|k: int| 0 <= k < 8 ==> (lo <= k <= hi) == !(#[trigger] bcs[k]).is_blank()
}

/// No cell of `s` lies beside a cell of column `k`, on the left if `left` and on the
/// right if not.
pub open spec fn closed_edge(s: Set<(int, int)>, bcs: [BitCol; 8], k: int, left: bool) -> bool {
    forall|r: int|
        0 <= r < 6 ==> !(#[trigger] bcs[k].has(r) && s.contains(
            (
                if left {
                    k - 1
                } else {
                    k + 1
                },
                r,
            ),
        ))
}

/// Columns that hold with each cell its neighbours in `s`, column by column and pair
/// of columns by pair of columns, are closed under stepping to neighbours in `s`.
pub proof fn lemma_fill_closed(s: Set<(int, int)>, bcs: [BitCol; 8], lo: int, hi: int)
    requires
        fill_window(bcs, lo, hi),
        forall|k: int| lo <= k <= hi ==> closed_vertical(s, bcs, k),
        forall|k: int| lo < k <= hi ==> closed_left(s, bcs, k),
        forall|k: int| lo < k <= hi ==> closed_right(s, bcs, k),
        lo == 0 || closed_edge(s, bcs, lo, true),
        hi == 7 || closed_edge(s, bcs, hi, false),
    ensures
        closed_in(s, cols_set(bcs)),
{
    let t = cols_set(bcs);
    assert forall|b: (int, int), d: (int, int)|
        t.contains(b) && #[trigger] adjacent(b, d) && s.contains(d) implies t.contains(d) by {
        assert(bcs[b.0].has(b.1));
        assert(!bcs[b.0].is_blank());
        assert(lo <= b.0 <= hi);
        if d.0 == b.0 {
            assert(closed_vertical(s, bcs, b.0));
            assert(d == (b.0, d.1));
            assert(s.contains((b.0, d.1)));
            assert((d.1 > 0 && bcs[b.0].has(d.1 - 1)) || (d.1 < 5 && bcs[b.0].has(d.1 + 1)));
            assert(bcs[b.0].has(d.1));
        } else if d.0 == b.0 - 1 {
            assert(d == (b.0 - 1, b.1));
            if b.0 > lo {
                assert(closed_left(s, bcs, b.0));
            } else {
                assert(closed_edge(s, bcs, lo, true));
            }
            assert(bcs[d.0].has(d.1));
        } else {
            assert(d == (b.0 + 1, b.1));
            if b.0 < hi {
                assert(closed_right(s, bcs, b.0 + 1));
                assert(bcs[b.0 + 1 - 1].has(b.1));
            } else {
                assert(closed_edge(s, bcs, hi, false));
            }
            assert(bcs[d.0].has(d.1));
        }
    }
}

impl MaskBoard {
    /// Steps from the edge column `c` of the window `lo` to `hi` into the column beside
    /// it, on the left if `left` and on the right if not, where that column has cells
    /// of the mask beside cells of column `c`; says whether it did.
    fn fill_edge(
        &self,
        bcs: [BitCol; 8],
        col_mask: u32,
        c: usize,
        lo: usize,
        hi: usize,
        left: bool,
        Ghost(a): Ghost<(int, int)>,
    ) -> (res: ([BitCol; 8], u32, bool))
        requires
            self.wf(),
            cols_wf(bcs, col_mask),
            fill_state(self@, a, bcs),
            fill_window(bcs, lo as int, hi as int),
            c == if left {
                lo
            } else {
                hi
            },
        ensures
            cols_wf(res.0, res.1),
            fill_state(self@, a, res.0),
            !res.2 ==> res.0 == bcs && res.1 == col_mask && (if left {
                lo == 0
            } else {
                hi == 7
            } || closed_edge(self@, bcs, c as int, left)),
            res.2 ==> cell_count(cols_set(res.0)) > cell_count(cols_set(bcs)),
            res.2 && left ==> lo > 0 && fill_window(res.0, lo - 1, hi as int),
            res.2 && !left ==> hi < 7 && fill_window(res.0, lo as int, hi + 1),
    {
        let ghost s = self@;
        if (left && c == 0) || (!left && c == 7) {
            return (bcs, col_mask, false);
        }
        let d: usize = if left {
            c - 1
        } else {
            c + 1
        };
        let bc = bcs[c].bitand(self.cols[d]);
        proof {
            assert forall|r: int| 0 <= r < 6 implies s.contains((d as int, r))
                == #[trigger] self.cols[d as int].has(r) by {
                assert(in_grid((d as int, r)));
            }
            assert(bcs[d as int].is_blank());
        }
        if !bc.is_zero() {
            proof {
                assert forall|r: int|
                    0 <= r < 6 && #[trigger] bc.has(r) && !bcs[d as int].has(r) implies s.contains(
                    (d as int, r),
                ) && (cols_set(bcs).contains((d - 1, r)) || cols_set(bcs).contains((d + 1, r))
                    || cols_set(bcs).contains((d as int, r - 1)) || cols_set(bcs).contains(
                    (d as int, r + 1),
                )) by {
                    assert(bcs[c as int].has(r));
                    assert(cols_set(bcs).contains((c as int, r)));
                }
            }
            let (next, changed) = fill_put(bcs, d, bc, Ghost(s), Ghost(a));
            let next_mask: u32 = col_mask_with(col_mask, d);
            proof {
                assert(changed) by {
                    if bc == bcs[d as int] {
                        assert(bc.is_blank());
                    }
                }
                assert forall|k: int| 0 <= k < 8 implies (#[trigger] next[k]).wf()
                    && next[k].is_mask() && col_bit(next_mask, k) == !next[k].is_blank() by {
                    assert(col_bit(col_mask, k) == !bcs[k].is_blank());
                    if k != d {
                        assert(next[k] == bcs[k]);
                    }
                }
                assert forall|k: int| 0 <= k < 8 implies (if left {
                    lo - 1 <= k <= hi
                } else {
                    lo <= k <= hi + 1
                }) == !(#[trigger] next[k]).is_blank() by {
                    if k != d {
                        assert(next[k] == bcs[k]);
                    }
                }
            }
            (next, next_mask, true)
        } else {
            proof {
                assert forall|r: int| 0 <= r < 6 implies !(#[trigger] bcs[c as int].has(r)
                    && s.contains((d as int, r))) by {
                    assert(bc.has(r) == (bcs[c as int].has(r) && self.cols[d as int].has(r)));
                    assert(bc.cell(r) == 0);
                }
            }
            (bcs, col_mask, false)
        }
    }

    /// The cells of the mask that a walk inside the mask reaches from `sq`.
    pub fn flood_fill(&self, sq: Square) -> (res: MaskBoard)
        requires
            self.contains(sq),
        ensures
            res.wf(),
            res@ == component(self@, sq.cell()),
    {
        let seed = MaskBoard::single(sq);
        self.flood_fill_impl(&seed, Ghost(sq.cell()))
    }

    /// The cells of the mask that a walk inside the mask reaches from `sq`, or `None`
    /// where the mask does not hold `sq`.
    pub fn flood_fill_checked(&self, sq: Square) -> (res: Option<MaskBoard>)
        ensures
            res is Some <==> self.contains(sq),
            res matches Some(m) ==> m.wf() && m@ == component(self@, sq.cell()),
    {
        if self.test(sq) {
            Some(self.flood_fill(sq))
        } else {
            None
        }
    }

    /// Grows each column of the window upwards and downwards within the mask; says
    /// whether a column changed.
    fn fill_vertical(
        &self,
        bcs: [BitCol; 8],
        lo: usize,
        hi: usize,
        Ghost(col_mask): Ghost<u32>,
        Ghost(a): Ghost<(int, int)>,
    ) -> (res: ([BitCol; 8], bool))
        requires
            self.wf(),
            cols_wf(bcs, col_mask),
            fill_state(self@, a, bcs),
            fill_window(bcs, lo as int, hi as int),
        ensures
            cols_wf(res.0, col_mask),
            fill_state(self@, a, res.0),
            fill_window(res.0, lo as int, hi as int),
            !res.1 ==> res.0 == bcs && forall|k: int| lo <= k <= hi ==> closed_vertical(self@, bcs, k),
            res.1 ==> cell_count(cols_set(res.0)) > cell_count(cols_set(bcs)),
    {
        let ghost s = self@;
        let ghost n0 = cell_count(cols_set(bcs));
        let ghost start = bcs;
        let mut bcs = bcs;
        let mut updated = false;
        let mut c: usize = lo;
        while c <= hi
            invariant
                lo <= c <= hi + 1,
                hi < 8,
                s == self@,
                self.wf(),
                cols_wf(bcs, col_mask),
                fill_state(s, a, bcs),
                fill_window(bcs, lo as int, hi as int),
                cell_count(cols_set(bcs)) >= n0,
                updated ==> cell_count(cols_set(bcs)) > n0,
                !updated ==> bcs == start,
                !updated ==> forall|k: int| lo <= k < c ==> closed_vertical(s, bcs, k),
            decreases hi + 1 - c,
        {
            let bc = bcs[c].grow(self.cols[c]);
            proof {
                assert forall|r: int| 0 <= r < 6 implies s.contains((c as int, r))
                    == #[trigger] self.cols[c as int].has(r) by {
                    assert(in_grid((c as int, r)));
                }
                assert forall|r: int| 0 <= r < 6 && #[trigger] bcs[c as int].has(r) implies bc.has(
                    r,
                ) by {
                    assert(cols_set(bcs).contains((c as int, r)));
                    lemma_connected_in(s, a, (c as int, r));
                }
                assert forall|r: int|
                    0 <= r < 6 && #[trigger] bc.has(r) && !bcs[c as int].has(r) implies s.contains(
                    (c as int, r),
                ) && (cols_set(bcs).contains((c - 1, r)) || cols_set(bcs).contains((c + 1, r))
                    || cols_set(bcs).contains((c as int, r - 1)) || cols_set(bcs).contains(
                    (c as int, r + 1),
                )) by {
                    if r > 0 && bcs[c as int].has(r - 1) {
                        assert(cols_set(bcs).contains((c as int, r - 1)));
                    } else {
                        assert(r < 5 && bcs[c as int].has(r + 1));
                        assert(cols_set(bcs).contains((c as int, r + 1)));
                    }
                }
                assert(cols_wf(bcs, col_mask) && fill_window(bcs, lo as int, hi as int));
            }
            let (next, changed) = fill_put(bcs, c, bc, Ghost(s), Ghost(a));
            bcs = next;
            if changed {
                updated = true;
            } else {
                proof {
                    assert(closed_vertical(s, bcs, c as int));
                }
            }
            c = c + 1;
        }
        (bcs, updated)
    }

    /// Grows each column of the window but the first into the column on its left
    /// (`left`) or from the column on its left (not `left`); says whether a column
    /// changed.
    fn fill_sideways(
        &self,
        bcs: [BitCol; 8],
        lo: usize,
        hi: usize,
        left: bool,
        Ghost(col_mask): Ghost<u32>,
        Ghost(a): Ghost<(int, int)>,
    ) -> (res: ([BitCol; 8], bool))
        requires
            self.wf(),
            cols_wf(bcs, col_mask),
            fill_state(self@, a, bcs),
            fill_window(bcs, lo as int, hi as int),
        ensures
            cols_wf(res.0, col_mask),
            fill_state(self@, a, res.0),
            fill_window(res.0, lo as int, hi as int),
            !res.1 ==> res.0 == bcs,
            !res.1 && left ==> forall|k: int| lo < k <= hi ==> closed_left(self@, bcs, k),
            !res.1 && !left ==> forall|k: int| lo < k <= hi ==> closed_right(self@, bcs, k),
            res.1 ==> cell_count(cols_set(res.0)) > cell_count(cols_set(bcs)),
    {
        let ghost s = self@;
        let ghost n0 = cell_count(cols_set(bcs));
        let ghost start = bcs;
        let mut bcs = bcs;
        let mut updated = false;
        let mut c: usize = lo + 1;
        while c <= hi
            invariant
                lo < c <= hi + 1,
                hi < 8,
                s == self@,
                self.wf(),
                cols_wf(bcs, col_mask),
                fill_state(s, a, bcs),
                fill_window(bcs, lo as int, hi as int),
                cell_count(cols_set(bcs)) >= n0,
                updated ==> cell_count(cols_set(bcs)) > n0,
                !updated ==> bcs == start,
                !updated && left ==> forall|k: int| lo < k < c ==> closed_left(s, bcs, k),
                !updated && !left ==> forall|k: int| lo < k < c ==> closed_right(s, bcs, k),
            decreases hi + 1 - c,
        {
            let d: usize = if left {
                c - 1
            } else {
                c
            };
            let e: usize = if left {
                c
            } else {
                c - 1
            };
            let both = bcs[c - 1].bitor(bcs[c]);
            let bc = both.bitand(self.cols[d]);
            proof {
                assert forall|r: int| 0 <= r < 6 implies s.contains((d as int, r))
                    == #[trigger] self.cols[d as int].has(r) by {
                    assert(in_grid((d as int, r)));
                }
                assert forall|r: int| 0 <= r < 6 && #[trigger] bcs[d as int].has(r) implies bc.has(
                    r,
                ) by {
                    assert(cols_set(bcs).contains((d as int, r)));
                    lemma_connected_in(s, a, (d as int, r));
                }
                assert forall|r: int|
                    0 <= r < 6 && #[trigger] bc.has(r) && !bcs[d as int].has(r) implies s.contains(
                    (d as int, r),
                ) && (cols_set(bcs).contains((d - 1, r)) || cols_set(bcs).contains((d + 1, r))
                    || cols_set(bcs).contains((d as int, r - 1)) || cols_set(bcs).contains(
                    (d as int, r + 1),
                )) by {
                    assert(both.has(r));
                    assert(bcs[e as int].has(r));
                    assert(cols_set(bcs).contains((e as int, r)));
                }
                assert(cols_wf(bcs, col_mask) && fill_window(bcs, lo as int, hi as int));
            }
            let (next, changed) = fill_put(bcs, d, bc, Ghost(s), Ghost(a));
            bcs = next;
            if changed {
                updated = true;
            } else {
                proof {
                    assert forall|r: int| 0 <= r < 6 && bcs[e as int].has(r) && s.contains(
                        (d as int, r),
                    ) implies bcs[d as int].has(r) by {
                        assert(both.has(r));
                        assert(bc.has(r));
                    }
                    if left {
                        assert(closed_left(s, bcs, c as int));
                    } else {
                        assert(closed_right(s, bcs, c as int));
                    }
                }
            }
            c = c + 1;
        }
        (bcs, updated)
    }

    /// The flood fill of `flood_fill`, from the mask `seed` that holds the one cell `a`.
    fn flood_fill_impl(&self, seed: &MaskBoard, Ghost(a): Ghost<(int, int)>) -> (res: MaskBoard)
        requires
            self@.contains(a),
            seed@ == set![a],
        ensures
            res.wf(),
            res@ == component(self@, a),
    {
        proof {
            use_type_invariant(self);
            use_type_invariant(seed);
            lemma_connected_refl(self@, a);
        }
        let ghost s = self@;
        let mut bcs: [BitCol; 8] = seed.cols;
        let mut col_mask: u32 = seed.col_mask;
        let mut c_min: usize = 0;
        while c_min < 7 && bcs[c_min].is_zero()
            invariant
                c_min <= 7,
                bcs == seed.cols,
                forall|k: int| 0 <= k < c_min ==> (#[trigger] bcs[k]).is_blank(),
            decreases 7 - c_min,
        {
            c_min = c_min + 1;
        }
        let mut c_max: usize = c_min;
        proof {
            assert(seed@.contains(a));
            assert(bcs[a.0].has(a.1));
            assert(!bcs[a.0].is_blank());
            if !bcs[c_min as int].is_blank() {
                let r = choose|r: int| 0 <= r < 6 && bcs[c_min as int].cell(r) != 0;
                assert(seed@.contains((c_min as int, r)));
            }
            assert(c_min == a.0);
            assert forall|k: int| 0 <= k < 8 implies (k == c_min) == !(#[trigger] bcs[k]).is_blank() by {
                if !bcs[k].is_blank() {
                    let r = choose|r: int| 0 <= r < 6 && bcs[k].cell(r) != 0;
                    assert(seed@.contains((k, r)));
                }
            }
            assert forall|p: (int, int)| #[trigger] cols_set(bcs).contains(p) implies connected(
                s,
                a,
                p,
            ) by {
                assert(seed@.contains(p));
            }
        }
        loop
            invariant
                c_min <= c_max < 8,
                s == self@,
                self.wf(),
                cols_wf(bcs, col_mask),
                fill_state(s, a, bcs),
                fill_window(bcs, c_min as int, c_max as int),
            decreases 48 - cell_count(cols_set(bcs)),
        {
            let ghost n0 = cell_count(cols_set(bcs));
            let ghost lo = c_min as int;
            let ghost hi = c_max as int;
            let (b1, u1) = self.fill_vertical(bcs, c_min, c_max, Ghost(col_mask), Ghost(a));
            let (b2, u2) = self.fill_sideways(b1, c_min, c_max, true, Ghost(col_mask), Ghost(a));
            let (b3, u3) = self.fill_sideways(b2, c_min, c_max, false, Ghost(col_mask), Ghost(a));
            let (b4, m4, u4) = self.fill_edge(b3, col_mask, c_min, c_min, c_max, true, Ghost(a));
            if u4 {
                c_min = c_min - 1;
            }
            let (b5, m5, u5) = self.fill_edge(b4, m4, c_max, c_min, c_max, false, Ghost(a));
            if u5 {
                c_max = c_max + 1;
            }
            let updated = u1 || u2 || u3 || u4 || u5;
            bcs = b5;
            col_mask = m5;
            if !updated {
                proof {
                    lemma_fill_closed(s, bcs, lo, hi);
                    lemma_component_is(s, cols_set(bcs), a);
                }
                return MaskBoard { cols: bcs, col_mask };
            }
            proof {
                lemma_count_range(cols_set(bcs));
            }
        }
    }
}

impl MaskBoard {
    /// The cells of column `c` are counted by the bit-column of that column.
    proof fn lemma_col_count(self, c: int)
        requires
            self.wf(),
            0 <= c < 8,
        ensures
            col_count(self@, c) == self.cols[c].count(),
            0 <= col_count(self@, c) <= 6,
            self.cols[c].is_blank() <==> col_count(self@, c) == 0,
    {
        let bc = self.cols[c];
        assert forall|r: int| 0 <= r < 6 implies indicator(self@, (c, r)) == #[trigger] bc.bit(r) by {
            assert(in_grid((c, r)));
        }
        assert(bc.is_mask());
        if col_count(self@, c) == 0 {
            assert forall|r: int| 0 <= r < 6 implies #[trigger] bc.cell(r) == 0 by {
                assert(bc.bit(r) == 0);
            }
        }
    }

    /// The column of index `c`, which is below 8.
    fn col_at(c: usize) -> (res: Col)
        requires
            c < 8,
        ensures
            res.wf(),
            res.index() == c,
    {
        Col::from_index(c).unwrap()
    }

    /// The number of columns in which the mask holds a cell.
    pub fn nonempty_col_count(&self) -> (res: u32)
        ensures
            res == used_below(*self, 8),
            res <= 8,
    {
        proof {
            use_type_invariant(self);
        }
        let mut n: u32 = 0;
        let mut c: usize = 0;
        while c < 8
            invariant
                0 <= c <= 8,
                self.wf(),
                n == used_below(*self, c as int),
                n <= c,
            decreases 8 - c,
        {
            proof {
                self.lemma_col_used(c as int);
            }
            if col_mask_test(self.col_mask, c) {
                n = n + 1;
            }
            c = c + 1;
        }
        n
    }

    /// The number of cells of the mask.
    pub fn square_count(&self) -> (res: u32)
        ensures
            res == self.count(),
            res <= 48,
    {
        proof {
            use_type_invariant(self);
            lemma_count_below_all(self@);
        }
        let mut n: u32 = 0;
        let mut c: usize = 0;
        while c < 8
            invariant
                0 <= c <= 8,
                self.wf(),
                n == count_below(self@, c as int),
                n <= 6 * c,
            decreases 8 - c,
        {
            proof {
                self.lemma_col_count(c as int);
            }
            if col_mask_test(self.col_mask, c) {
                n = n + self.cols[c].count_cells();
            }
            c = c + 1;
        }
        n
    }

    /// Whether the mask holds exactly one cell.
    pub fn is_single(&self) -> (res: bool)
        ensures
            res == (self.count() == 1),
    {
        self.square_count() == 1
    }

    /// The leftmost column in which the mask holds a cell, if it holds any.
    pub fn least_nonempty_col(&self) -> (res: Option<Col>)
        ensures
            res is None <==> self@ == Set::<(int, int)>::empty(),
            res is Some ==> res->0.wf() && self.col_used(res->0.index()) && forall|k: int|
                0 <= k < res->0.index() ==> !self.col_used(k),
    {
        if self.is_empty() {
            None
        } else {
            Some(self.least_nonempty_col_unchecked())
        }
    }

    /// The leftmost column in which a mask that is not empty holds a cell.
    pub fn least_nonempty_col_unchecked(&self) -> (res: Col)
        requires
            self@ != Set::<(int, int)>::empty(),
        ensures
            res.wf(),
            self.col_used(res.index()),
            forall|k: int| 0 <= k < res.index() ==> !self.col_used(k),
    {
        proof {
            use_type_invariant(self);
            self.lemma_col_mask();
        }
        let mut c: usize = 0;
        while c < 7 && !col_mask_test(self.col_mask, c)
            invariant
                0 <= c <= 7,
                self.wf(),
                forall|k: int| 0 <= k < 8 ==> col_bit(self.col_mask, k) == self.col_used(k),
                forall|k: int| 0 <= k < c ==> !self.col_used(k),
            decreases 7 - c,
        {
            c = c + 1;
        }
        proof {
            if !self.col_used(c as int) {
                assert forall|p: (int, int)| !self@.contains(p) by {
                    if self@.contains(p) {
                        assert(self.col_used(p.0));
                    }
                }
                assert(self@ =~= Set::<(int, int)>::empty());
            }
        }
        MaskBoard::col_at(c)
    }

    /// The columns in which the mask holds a cell, from left to right.
    pub fn nonempty_cols(&self) -> (res: Vec<Col>)
        ensures
            forall|i: int|
                0 <= i < res.len() ==> (#[trigger] res[i]).wf() && self.col_used(res[i].index()),
            forall|i: int, j: int| 0 <= i < j < res.len() ==> res[i].index() < res[j].index(),
            forall|k: int|
                0 <= k < 8 && self.col_used(k) ==> exists|i: int|
                    0 <= i < res.len() && (#[trigger] res[i]).index() == k,
    {
        proof {
            use_type_invariant(self);
            self.lemma_col_mask();
        }
        let mut res: Vec<Col> = Vec::new();
        let mut c: usize = 0;
        while c < 8
            invariant
                0 <= c <= 8,
                forall|k: int| 0 <= k < 8 ==> col_bit(self.col_mask, k) == self.col_used(k),
                forall|i: int|
                    0 <= i < res.len() ==> (#[trigger] res[i]).wf() && self.col_used(
                        res[i].index(),
                    ) && res[i].index() < c,
                forall|i: int, j: int| 0 <= i < j < res.len() ==> res[i].index() < res[j].index(),
                forall|k: int|
                    0 <= k < c && self.col_used(k) ==> exists|i: int|
                        0 <= i < res.len() && (#[trigger] res[i]).index() == k,
            decreases 8 - c,
        {
            if col_mask_test(self.col_mask, c) {
                let ghost before = res@;
                res.push(MaskBoard::col_at(c));
                proof {
                    assert forall|k: int| 0 <= k < c + 1 && self.col_used(k) implies exists|i: int|
                        0 <= i < res.len() && (#[trigger] res[i]).index() == k by {
                        if k < c {
                            let i = choose|i: int|
                                0 <= i < before.len() && (#[trigger] before[i]).index() == k;
                            assert(res[i].index() == k);
                        } else {
                            assert(res[res.len() - 1].index() == k);
                        }
                    }
                }
            }
            c = c + 1;
        }
        res
    }

    /// The first cell of the mask in the order of the squares, if the mask holds any.
    pub fn least_square(&self) -> (res: Option<Square>)
        ensures
            res is None <==> self@ == Set::<(int, int)>::empty(),
            res is Some ==> res->0.wf() && is_least(self@, res->0.cell()),
    {
        if self.is_empty() {
            None
        } else {
            Some(self.least_square_unchecked())
        }
    }

    /// The first cell, in the order of the squares, of a mask that is not empty.
    pub fn least_square_unchecked(&self) -> (res: Square)
        requires
            self@ != Set::<(int, int)>::empty(),
        ensures
            res.wf(),
            is_least(self@, res.cell()),
    {
        proof {
            use_type_invariant(self);
        }
        let col = self.least_nonempty_col_unchecked();
        proof {
            self.lemma_col_used(col.index());
            Col::lemma_value(col);
        }
        let row = self.cols[col.to_index()].lowest_row();
        let sq = Square::new(col, row);
        proof {
            Row::lemma_value(row);
            assert(sq.cell() == (col.index(), row.index()));
            assert forall|p: (int, int)| self@.contains(p) && in_grid(p) implies cell_index(
                sq.cell(),
            ) <= cell_index(p) by {
                assert(self.col_used(p.0));
                if p.0 == col.index() {
                    assert(self.cols[p.0].has(p.1));
                }
            }
        }
        sq
    }

    /// The mask that holds the first cell of a mask that is not empty, and that cell.
    fn blsi(&self) -> (res: (MaskBoard, Ghost<(int, int)>))
        requires
            self@ != Set::<(int, int)>::empty(),
        ensures
            res.0.wf(),
            res.0@ == set![res.1@],
            is_least(self@, res.1@),
    {
        let sq = self.least_square_unchecked();
        (MaskBoard::single(sq), Ghost(sq.cell()))
    }

    /// The cells of the mask in the order of the squares.
    pub fn squares(&self) -> (res: Vec<Square>)
        ensures
            forall|i: int|
                0 <= i < res.len() ==> (#[trigger] res[i]).wf() && self@.contains(res[i].cell()),
            forall|i: int, j: int| 0 <= i < j < res.len() ==> res[i].value() < res[j].value(),
            forall|p: (int, int)|
                self@.contains(p) ==> exists|i: int| 0 <= i < res.len() && (#[trigger] res[i]).cell() == p,
    {
        proof {
            use_type_invariant(self);
        }
        let mut res: Vec<Square> = Vec::new();
        let mut k: usize = 0;
        while k < 48
            invariant
                0 <= k <= 48,
                self.wf(),
                forall|i: int|
                    0 <= i < res.len() ==> (#[trigger] res[i]).wf() && self@.contains(res[i].cell())
                        && res[i].index() < k,
                forall|i: int, j: int| 0 <= i < j < res.len() ==> res[i].value() < res[j].value(),
                forall|p: (int, int)|
                    self@.contains(p) && cell_index(p) < k ==> exists|i: int|
                        0 <= i < res.len() && (#[trigger] res[i]).cell() == p,
            decreases 48 - k,
        {
            let c: usize = k / 6;
            if !col_mask_test(self.col_mask, c) {
                proof {
                    self.lemma_col_used(c as int);
                    assert forall|p: (int, int)|
                        self@.contains(p) && cell_index(p) < 6 * c + 6 implies exists|i: int|
                        0 <= i < res.len() && (#[trigger] res[i]).cell() == p by {
                        if p.0 == c {
                            assert(self.col_used(c as int));
                        }
                    }
                }
                k = 6 * c + 6;
            } else {
                let sq = Square::from_index(k).unwrap();
                if self.test(sq) {
                    let ghost before = res@;
                    res.push(sq);
                    proof {
                        sq.lemma_cell();
                        assert forall|p: (int, int)|
                            self@.contains(p) && cell_index(p) < k + 1 implies exists|i: int|
                            0 <= i < res.len() && (#[trigger] res[i]).cell() == p by {
                            if cell_index(p) < k {
                                let i = choose|i: int|
                                    0 <= i < before.len() && (#[trigger] before[i]).cell() == p;
                                assert(res[i].cell() == p);
                            } else {
                                assert(res[res.len() - 1].cell() == p);
                            }
                        }
                    }
                } else {
                    proof {
                        sq.lemma_cell();
                        assert forall|p: (int, int)|
                            self@.contains(p) && cell_index(p) < k + 1 implies exists|i: int|
                            0 <= i < res.len() && (#[trigger] res[i]).cell() == p by {
                            if cell_index(p) == k {
                                assert(p == sq.cell());
                            }
                        }
                    }
                }
                k = k + 1;
            }
        }
        res
    }

    /// The cells of `self` that are not cells of `rhs`.
    pub fn subtract(&self, rhs: &MaskBoard) -> (res: MaskBoard)
        ensures
            res.wf(),
            res@ == self@.difference(rhs@),
    {
        let mut res = *self;
        res.subtract_assign(rhs);
        res
    }

    /// Takes the cells of `rhs` out of `self`.
    pub fn subtract_assign(&mut self, rhs: &MaskBoard)
        ensures
            final(self).wf(),
            final(self)@ == old(self)@.difference(rhs@),
    {
        proof {
            use_type_invariant(&*self);
            use_type_invariant(rhs);
        }
        let mut cols: [BitCol; 8] = self.cols;
        let mut col_mask: u32 = self.col_mask;
        let mut c: usize = 0;
        while c < 8
            invariant
                0 <= c <= 8,
                self.wf(),
                rhs.wf(),
                cols_wf(cols, col_mask),
                forall|k: int| c <= k < 8 ==> cols[k] == self.cols[k],
                forall|k: int, r: int|
                    0 <= k < c && 0 <= r < 6 ==> #[trigger] cols[k].has(r) == (self.cols[k].has(r)
                        && !rhs.cols[k].has(r)),
            decreases 8 - c,
        {
            let ghost before = cols;
            let bc = cols[c].minus(rhs.cols[c]);
            cols[c] = bc;
            if bc.is_zero() {
                col_mask = col_mask_without(col_mask, c);
            }
            proof {
                assert forall|k: int| 0 <= k < 8 implies (#[trigger] cols[k]).wf()
                    && cols[k].is_mask() && col_bit(col_mask, k) == !cols[k].is_blank() by {
                    if k != c {
                        assert(cols[k] == before[k]);
                    } else if !bc.is_blank() {
                        let r = choose|r: int| 0 <= r < 6 && bc.cell(r) != 0;
                        assert(bc.has(r));
                        assert(before[k].has(r));
                    }
                }
                assert forall|k: int, r: int| 0 <= k < c + 1 && 0 <= r < 6 implies #[trigger] cols[k].has(
                    r,
                ) == (self.cols[k].has(r) && !rhs.cols[k].has(r)) by {
                    if k != c {
                        assert(cols[k] == before[k]);
                    }
                }
            }
            c = c + 1;
        }
        proof {
            assert forall|p: (int, int)| cols_set(cols).contains(p) == self@.difference(
                rhs@,
            ).contains(p) by {
                if in_grid(p) {
                    assert(cols[p.0].has(p.1) == (self.cols[p.0].has(p.1) && !rhs.cols[p.0].has(
                        p.1,
                    )));
                }
            }
            assert(cols_set(cols) =~= self@.difference(rhs@));
        }
        *self = MaskBoard { cols, col_mask };
    }

    /// The connected components of the mask, each as a mask, in the order of their
    /// first cells.
    pub fn components(&self) -> (res: Vec<MaskBoard>)
        ensures
            forall|i: int| 0 <= i < res.len() ==> (#[trigger] res[i]).wf(),
            forall|i: int, a: (int, int)|
                0 <= i < res.len() && #[trigger] res[i]@.contains(a) ==> res[i]@ == component(
                    self@,
                    a,
                ),
            forall|a: (int, int)|
                self@.contains(a) ==> exists|i: int| 0 <= i < res.len() && #[trigger] res[i]@.contains(a),
            forall|i: int, j: int|
                0 <= i < j < res.len() ==> starts_before((#[trigger] res[i])@, (#[trigger] res[j])@),
    {
        proof {
            use_type_invariant(self);
        }
        let ghost s = self@;
        let mut remain: MaskBoard = *self;
        let mut res: Vec<MaskBoard> = Vec::new();
        let ghost mut firsts: Seq<(int, int)> = Seq::empty();
        proof {
            assert(closed_in(s, remain@));
        }
        while !remain.is_empty()
            invariant
                s == self@,
                remain.wf(),
                closed_in(s, remain@),
                forall|p: (int, int)| remain@.contains(p) ==> s.contains(p),
                firsts.len() == res.len(),
                forall|i: int| 0 <= i < res.len() ==> (#[trigger] res[i]).wf(),
                forall|i: int, a: (int, int)|
                    0 <= i < res.len() && #[trigger] res[i]@.contains(a) ==> res[i]@ == component(
                        s,
                        a,
                    ),
                forall|a: (int, int)|
                    s.contains(a) ==> remain@.contains(a) || exists|i: int|
                        0 <= i < res.len() && #[trigger] res[i]@.contains(a),
                forall|i: int| 0 <= i < res.len() ==> res[i]@.contains(#[trigger] firsts[i]),
                forall|i: int, b: (int, int)|
                    0 <= i < res.len() && #[trigger] remain@.contains(b) ==> cell_index(
                        #[trigger] firsts[i],
                    ) < cell_index(b),
                forall|i: int, j: int, b: (int, int)|
                    0 <= i < j < res.len() && #[trigger] res[j]@.contains(b) ==> cell_index(
                        #[trigger] firsts[i],
                    ) < cell_index(b),
            decreases cell_count(remain@),
        {
            let ghost before = remain@;
            let ghost done = res@;
            let (seed, Ghost(a)) = remain.blsi();
            let comp = remain.flood_fill_impl(&seed, Ghost(a));
            remain.subtract_assign(&comp);
            res.push(comp);
            proof {
                firsts = firsts.push(a);
                lemma_component_in_closed(s, before, a);
                lemma_closed_minus_component(s, before, a);
                lemma_connected_refl(before, a);
                assert(comp@.contains(a));
                assert forall|i: int, b: (int, int)|
                    0 <= i < res.len() && #[trigger] res[i]@.contains(b) implies res[i]@
                    == component(s, b) by {
                    if i == res.len() - 1 {
                        lemma_component_same(s, a, b);
                    } else {
                        assert(res[i] == done[i]);
                    }
                }
                assert forall|p: (int, int)|
                    s.contains(p) implies remain@.contains(p) || exists|i: int|
                    0 <= i < res.len() && #[trigger] res[i]@.contains(p) by {
                    if before.contains(p) {
                        if comp@.contains(p) {
                            assert(res[res.len() - 1]@.contains(p));
                        }
                    } else {
                        let i = choose|i: int| 0 <= i < done.len() && #[trigger] done[i]@.contains(p);
                        assert(res[i] == done[i]);
                    }
                }
                assert forall|i: int, j: int, b: (int, int)|
                    0 <= i < j < res.len() && #[trigger] res[j]@.contains(b) implies cell_index(
                    #[trigger] firsts[i],
                ) < cell_index(b) by {
                    if j == res.len() - 1 {
                        lemma_connected_in(before, a, b);
                    } else {
                        assert(res[j] == done[j]);
                    }
                }
                assert forall|i: int, b: (int, int)|
                    0 <= i < res.len() && #[trigger] remain@.contains(b) implies cell_index(
                    #[trigger] firsts[i],
                ) < cell_index(b) by {
                    if i == res.len() - 1 {
                        assert(before.contains(b));
                        assert(in_grid(b));
                        assert(in_grid(a));
                        assert(!comp@.contains(b));
                        assert(b != a);
                    }
                }
                assert forall|i: int| 0 <= i < res.len() implies res[i]@.contains(
                    #[trigger] firsts[i],
                ) by {
                    if i < res.len() - 1 {
                        assert(res[i] == done[i]);
                    }
                }
                assert(grid_subset(remain@, before));
                assert(in_grid(a));
                assert(before.contains((a.0, a.1)) && !remain@.contains((a.0, a.1)));
                lemma_count_subset(remain@, before);
                lemma_count_range(remain@);
            }
        }
        proof {
            assert forall|i: int, j: int| 0 <= i < j < res.len() implies starts_before(
                (#[trigger] res[i])@,
                (#[trigger] res[j])@,
            ) by {
                let a = firsts[i];
                assert(res[i]@.contains(a));
                assert forall|b: (int, int)| res[j]@.contains(b) implies cell_index(a) < cell_index(
                    b,
                ) by {}
            }
        }
        res
    }
}

/// Whether `s` holds a cell that comes before every cell of `t` in the order of the
/// squares.
pub open spec fn starts_before(s: Set<(int, int)>, t: Set<(int, int)>) -> bool {
    exists|a: (int, int)|
        #[trigger] s.contains(a) && forall|b: (int, int)|
            t.contains(b) ==> cell_index(a) < cell_index(b)
}

/// The number of columns below column `n` in which the mask holds a cell.
pub open spec fn used_below(mask: MaskBoard, n: int) -> int
    decreases n,
{
    if n <= 0 {
        0
    } else {
        used_below(mask, n - 1) + if mask.col_used(n - 1) {
            1int
        } else {
            0
        }
    }
}

} // verus!
