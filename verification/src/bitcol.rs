//! Bit-columns: six 3-bit cells packed into the low 18 bits of a 32-bit word.
//!
//! The cell of 0-based row `r` occupies the bits `3 * r` to `3 * r + 2`. All the
//! reasoning about bits is done here; the rest of the library speaks of cells.

use vstd::prelude::*;
use crate::piece::Piece;
use crate::square::Row;

verus! {

/// A word whose every cell holds the value 1.
pub const UNIT: u32 = 0x9249;

/// The first word that does not fit into six cells.
pub const LIMIT: u32 = 0x40000;

/// The cell of row `r` in the word `x`.
pub open spec fn c32(x: u32, r: u32) -> u32 {
    (x >> ((3 * r) as u32)) & 7
}

/// A cell holds a value from 0 to 7.
proof fn bv_cell_range(x: u32, r: u32)
    by (bit_vector)
    requires
        r < 6,
    ensures
        c32(x, r) <= 7,
{
}

/// Words below the limit with the same six cells are the same word.
proof fn bv_ext(x: u32, y: u32)
    by (bit_vector)
    requires
        x < 0x40000,
        y < 0x40000,
        c32(x, 0) == c32(y, 0),
        c32(x, 1) == c32(y, 1),
        c32(x, 2) == c32(y, 2),
        c32(x, 3) == c32(y, 3),
        c32(x, 4) == c32(y, 4),
        c32(x, 5) == c32(y, 5),
    ensures
        x == y,
{
}

/// The cells of the word 0 are 0.
proof fn bv_zero(r: u32)
    by (bit_vector)
    requires
        r < 6,
    ensures
        c32(0, r) == 0,
{
}

/// Writing a cell changes that cell and no other.
proof fn bv_set(x: u32, r: u32, v: u32, q: u32)
    by (bit_vector)
    requires
        x < 0x40000,
        r < 6,
        q < 6,
        v <= 7,
    ensures
        ((x & !(7u32 << ((3 * r) as u32))) | (v << ((3 * r) as u32))) < 0x40000,
        c32((x & !(7u32 << ((3 * r) as u32))) | (v << ((3 * r) as u32)), q) == if q == r {
            v
        } else {
            c32(x, q)
        },
{
}

/// The product of the unit and a value holds the value in every cell.
proof fn bv_broadcast(v: u32, r: u32)
    by (bit_vector)
    requires
        v <= 7,
        r < 6,
    ensures
        0x9249u32 * v < 0x40000,
        c32((0x9249u32 * v) as u32, r) == v,
{
}

/// The bitwise operations work cell by cell and stay below the limit.
proof fn bv_logic(x: u32, y: u32, r: u32)
    by (bit_vector)
    requires
        x < 0x40000,
        y < 0x40000,
        r < 6,
    ensures
        (x & y) < 0x40000,
        (x | y) < 0x40000,
        (x ^ y) < 0x40000,
        c32(x & y, r) == c32(x, r) & c32(y, r),
        c32(x | y, r) == c32(x, r) | c32(y, r),
        c32(x ^ y, r) == c32(x, r) ^ c32(y, r),
{
}

/// A word below the limit has no bit outside the unit exactly if its cells are 0 or 1.
proof fn bv_mask_word(x: u32)
    by (bit_vector)
    requires
        x < 0x40000,
    ensures
        (x & !0x9249u32 == 0) <==> (c32(x, 0) <= 1 && c32(x, 1) <= 1 && c32(x, 2) <= 1 && c32(x, 3)
            <= 1 && c32(x, 4) <= 1 && c32(x, 5) <= 1),
{
}

/// The bitwise operations on masks are the operations on sets of rows.
proof fn bv_mask_logic(x: u32, y: u32, r: u32)
    by (bit_vector)
    requires
        x & !0x9249u32 == 0,
        y & !0x9249u32 == 0,
        r < 6,
    ensures
        (x & y) & !0x9249u32 == 0,
        (x | y) & !0x9249u32 == 0,
        (x & !y) & !0x9249u32 == 0,
        (x ^ y) & !0x9249u32 == 0,
        (x ^ y) < 0x40000,
        (x & y) < 0x40000,
        (x | y) < 0x40000,
        (x & !y) < 0x40000,
        c32(x & y, r) != 0 <==> c32(x, r) != 0 && c32(y, r) != 0,
        c32(x | y, r) != 0 <==> c32(x, r) != 0 || c32(y, r) != 0,
        c32(x & !y, r) != 0 <==> c32(x, r) != 0 && c32(y, r) == 0,
        c32(x ^ y, r) != 0 <==> (c32(x, r) != 0) != (c32(y, r) != 0),
{
}

/// Two masks have a common bit exactly if they mark a common row.
proof fn bv_intersects(x: u32, y: u32)
    by (bit_vector)
    requires
        x & !0x9249u32 == 0,
        y & !0x9249u32 == 0,
    ensures
        (x & y) != 0 <==> ((c32(x, 0) != 0 && c32(y, 0) != 0) || (c32(x, 1) != 0 && c32(y, 1) != 0)
            || (c32(x, 2) != 0 && c32(y, 2) != 0) || (c32(x, 3) != 0 && c32(y, 3) != 0) || (c32(
            x,
            4,
        ) != 0 && c32(y, 4) != 0) || (c32(x, 5) != 0 && c32(y, 5) != 0)),
{
}

/// The folding trick marks the cells that hold the value `p`.
proof fn bv_eq_mask(x: u32, p: u32, r: u32)
    by (bit_vector)
    requires
        x < 0x40000,
        p <= 7,
        r < 6,
    ensures
        ({
            let t = x ^ ((0x9249u32 * p) as u32);
            let m = ((t | (t >> 1) | (t >> 2)) & 0x9249u32) ^ 0x9249u32;
            &&& m & !0x9249u32 == 0
            &&& m < 0x40000
            &&& c32(m, r) == if c32(x, r) == p { 1u32 } else { 0u32 }
        }),
{
}

/// The folding trick marks the cells that are not 0.
proof fn bv_nonzero_mask(x: u32, r: u32)
    by (bit_vector)
    requires
        x < 0x40000,
        r < 6,
    ensures
        ({
            let m = (x | (x >> 1) | (x >> 2)) & 0x9249u32;
            &&& m & !0x9249u32 == 0
            &&& m < 0x40000
            &&& c32(m, r) == if c32(x, r) != 0 { 1u32 } else { 0u32 }
        }),
{
}

/// The XOR of two words is 0 in the cells in which they agree, and only there.
proof fn bv_xor_cells(x: u32, y: u32, r: u32)
    by (bit_vector)
    requires
        r < 6,
    ensures
        c32(x ^ y, r) == 0 <==> c32(x, r) == c32(y, r),
{
}

/// Shifting a mask by one cell up and down marks the rows beside its rows.
proof fn bv_grow(a: u32, s: u32, r: u32)
    by (bit_vector)
    requires
        a & !0x9249u32 == 0,
        s & !0x9249u32 == 0,
        r < 6,
    ensures
        ({
            let v = (a | (a << 3) | (a >> 3)) & s;
            &&& v & !0x9249u32 == 0
            &&& v < 0x40000
            &&& c32(v, r) != 0 <==> c32(s, r) != 0 && (c32(a, r) != 0 || (r > 0 && c32(
                a,
                (r - 1) as u32,
            ) != 0) || (r < 5 && c32(a, (r + 1) as u32) != 0))
        }),
{
}

/// A mask meets itself shifted by one cell exactly if it marks two rows that follow
/// each other.
proof fn bv_vertical_pair(a: u32)
    by (bit_vector)
    requires
        a & !0x9249u32 == 0,
    ensures
        (a & (a >> 3)) != 0 <==> ((c32(a, 0) != 0 && c32(a, 1) != 0) || (c32(a, 1) != 0 && c32(
            a,
            2,
        ) != 0) || (c32(a, 2) != 0 && c32(a, 3) != 0) || (c32(a, 3) != 0 && c32(a, 4) != 0) || (
        c32(a, 4) != 0 && c32(a, 5) != 0)),
{
}

/// The product of a mask and the unit holds the number of marked rows in its sixth
/// cell.
proof fn bv_count(a: u32)
    by (bit_vector)
    requires
        a & !0x9249u32 == 0,
    ensures
        a * 0x9249u32 <= 0xffff_ffffu32,
        (((a * 0x9249u32) as u32) >> 15) & 7 == c32(a, 0) + c32(a, 1) + c32(a, 2) + c32(a, 3)
            + c32(a, 4) + c32(a, 5),
{
}

/// A mask and its negation have the lowest marked row of the mask in common, and no
/// other.
proof fn bv_lowest(a: u32)
    by (bit_vector)
    requires
        a & !0x9249u32 == 0,
        a != 0,
    ensures
        !a < 0xffff_ffffu32,
        ({
            let l = a & ((!a + 1) as u32);
            &&& l & !0x9249u32 == 0
            &&& l < 0x40000
            &&& l != 0
            &&& c32(l, 0) != 0 <==> c32(a, 0) != 0
            &&& c32(l, 1) != 0 <==> c32(a, 1) != 0 && c32(a, 0) == 0
            &&& c32(l, 2) != 0 <==> c32(a, 2) != 0 && c32(a, 1) == 0 && c32(a, 0) == 0
            &&& c32(l, 3) != 0 <==> c32(a, 3) != 0 && c32(a, 2) == 0 && c32(a, 1) == 0 && c32(a, 0)
                == 0
            &&& c32(l, 4) != 0 <==> c32(a, 4) != 0 && c32(a, 3) == 0 && c32(a, 2) == 0 && c32(a, 1)
                == 0 && c32(a, 0) == 0
            &&& c32(l, 5) != 0 <==> c32(a, 5) != 0 && c32(a, 4) == 0 && c32(a, 3) == 0 && c32(a, 2)
                == 0 && c32(a, 1) == 0 && c32(a, 0) == 0
        }),
{
}

/// A mask that is not 0 has no bit in common with itself less one exactly if it marks
/// one row.
proof fn bv_single(a: u32)
    by (bit_vector)
    requires
        a & !0x9249u32 == 0,
        a != 0,
    ensures
        a & ((a - 1) as u32) == 0 <==> c32(a, 0) + c32(a, 1) + c32(a, 2) + c32(a, 3) + c32(a, 4)
            + c32(a, 5) == 1,
{
}

/// The values of the cells of `col` below row `n` whose row is not in `del`, from the
/// bottom up.
pub open spec fn kept_below(col: Seq<int>, del: Set<int>, n: int) -> Seq<int>
    decreases n,
{
    if n <= 0 {
        Seq::empty()
    } else if del.contains(n - 1) {
        kept_below(col, del, n - 1)
    } else {
        kept_below(col, del, n - 1).push(col[n - 1])
    }
}

/// The column `col` after the cells of the rows in `del` are taken out and the cells
/// above them have fallen: the cells that stay, in their order, then empty cells.
pub open spec fn fall(col: Seq<int>, del: Set<int>) -> Seq<int> {
    let kept = kept_below(col, del, 6);
    Seq::new(
        6,
        |r: int|
            if r < kept.len() {
                kept[r]
            } else {
                0
            },
    )
}

/// At most `n` cells stay below row `n`.
pub proof fn lemma_kept_below_len(col: Seq<int>, del: Set<int>, n: int)
    requires
        0 <= n,
    ensures
        kept_below(col, del, n).len() <= n,
    decreases n,
{
    if n > 0 {
        lemma_kept_below_len(col, del, n - 1);
    }
}

/// Where no row is deleted every cell stays where it is.
pub proof fn lemma_kept_below_none(col: Seq<int>, del: Set<int>, n: int)
    requires
        0 <= n <= col.len(),
        forall|r: int| 0 <= r < n ==> !del.contains(r),
    ensures
        kept_below(col, del, n) == col.subrange(0, n),
    decreases n,
{
    if n > 0 {
        lemma_kept_below_none(col, del, n - 1);
        assert(col.subrange(0, n - 1).push(col[n - 1]) =~= col.subrange(0, n));
    } else {
        assert(col.subrange(0, 0) =~= Seq::<int>::empty());
    }
}

/// Where no row is deleted the column stays as it is.
pub proof fn lemma_fall_none(col: Seq<int>, del: Set<int>)
    requires
        col.len() == 6,
        forall|r: int| 0 <= r < 6 ==> !del.contains(r),
    ensures
        fall(col, del) == col,
{
    lemma_kept_below_none(col, del, 6);
    assert(fall(col, del) =~= col);
}

/// The cells that stay hold values of the column.
pub proof fn lemma_kept_below_values(col: Seq<int>, del: Set<int>, n: int, lo: int, hi: int)
    requires
        0 <= n <= col.len(),
        forall|r: int| 0 <= r < n ==> lo <= #[trigger] col[r] <= hi,
    ensures
        forall|i: int|
            0 <= i < kept_below(col, del, n).len() ==> lo <= #[trigger] kept_below(col, del, n)[i]
                <= hi,
    decreases n,
{
    if n > 0 {
        lemma_kept_below_values(col, del, n - 1, lo, hi);
        let prev = kept_below(col, del, n - 1);
        let now = kept_below(col, del, n);
        assert forall|i: int| 0 <= i < now.len() implies lo <= #[trigger] now[i] <= hi by {
            if i < prev.len() {
                assert(now[i] == prev[i]);
            } else {
                assert(now[i] == col[n - 1]);
            }
        }
    }
}

/// The cells of the fallen column hold values of the column, or 0.
pub proof fn lemma_fall_values(col: Seq<int>, del: Set<int>, lo: int, hi: int)
    requires
        col.len() == 6,
        lo <= 0 <= hi,
        forall|r: int| 0 <= r < 6 ==> lo <= #[trigger] col[r] <= hi,
    ensures
        fall(col, del).len() == 6,
        forall|r: int| 0 <= r < 6 ==> lo <= #[trigger] fall(col, del)[r] <= hi,
{
    lemma_kept_below_values(col, del, 6, lo, hi);
}

/// A bit-column: the six cells of one column of the grid, three bits each.
#[derive(Clone, Copy, Debug, PartialEq, Eq, Structural, Hash)]
pub struct BitCol(u32);

impl View for BitCol {
    type V = Seq<int>;

    /// The six cell values from the bottom row to the top row.
    open spec fn view(&self) -> Seq<int> {
        Seq::new(6, |r: int| self.cell(r))
    }
}

impl BitCol {
    /// Whether the column is well-formed: its word uses the low 18 bits only.
    #[verifier::type_invariant]
    pub closed spec fn wf(self) -> bool {
        self.0 < 0x40000
    }

    /// The value of the cell at 0-based row `r`.
    pub closed spec fn cell(self, r: int) -> int {
        c32(self.0, r as u32) as int
    }

    /// The cell at row `r` is not 0.
    pub open spec fn has(self, r: int) -> bool {
        self.cell(r) != 0
    }

    /// Every cell is 0.
    pub open spec fn is_blank(self) -> bool {
        forall|r: int| 0 <= r < 6 ==> #[trigger] self.cell(r) == 0
    }

    /// Every cell is 0 or 1: the column marks a set of rows.
    pub open spec fn is_mask(self) -> bool {
        forall|r: int| 0 <= r < 6 ==> 0 <= #[trigger] self.cell(r) <= 1
    }

    /// Every cell is at most `max`.
    pub open spec fn cells_at_most(self, max: int) -> bool {
        forall|r: int| 0 <= r < 6 ==> #[trigger] self.cell(r) <= max
    }

    /// The rows whose cell is not 0.
    pub open spec fn rows(self) -> Set<int> {
        Set::new(|r: int| 0 <= r < 6 && self.has(r))
    }

    /// 1 if the cell at row `r` is not 0, else 0.
    pub open spec fn bit(self, r: int) -> int {
        if self.has(r) {
            1
        } else {
            0
        }
    }

    /// The number of cells that are not 0.
    pub open spec fn count(self) -> int {
        self.bit(0) + self.bit(1) + self.bit(2) + self.bit(3) + self.bit(4) + self.bit(5)
    }

    /// The number of cells that hold `value`.
    pub open spec fn count_of(self, value: int) -> int {
        (if self.cell(0) == value { 1int } else { 0 }) + (if self.cell(1) == value { 1int } else { 0 })
            + (if self.cell(2) == value { 1int } else { 0 }) + (if self.cell(3) == value { 1int } else { 0 })
            + (if self.cell(4) == value { 1int } else { 0 }) + (if self.cell(5) == value { 1int } else { 0 })
    }

    /// Every cell of a column holds a value from 0 to 7.
    pub broadcast proof fn lemma_cell_range(self, r: int)
        requires
            0 <= r < 6,
        ensures
            0 <= #[trigger] self.cell(r) <= 7,
    {
        bv_cell_range(self.0, r as u32);
    }

    /// Two well-formed columns with the same cells are the same column.
    pub proof fn lemma_ext(self, other: BitCol)
        requires
            self.wf(),
            other.wf(),
            forall|r: int| 0 <= r < 6 ==> self.cell(r) == other.cell(r),
        ensures
            self == other,
    {
        assert(self.cell(0) == other.cell(0));
        assert(self.cell(1) == other.cell(1));
        assert(self.cell(2) == other.cell(2));
        assert(self.cell(3) == other.cell(3));
        assert(self.cell(4) == other.cell(4));
        assert(self.cell(5) == other.cell(5));
        bv_ext(self.0, other.0);
    }

    /// Two columns that pack the same word are the same column.
    pub proof fn lemma_inner_ext(self, other: BitCol)
        requires
            self.inner_spec() == other.inner_spec(),
        ensures
            self == other,
    {
    }

    /// Two well-formed masks mark the same rows only if they are the same column.
    pub proof fn lemma_mask_ext(self, other: BitCol)
        requires
            self.wf(),
            other.wf(),
            self.is_mask(),
            other.is_mask(),
            forall|r: int| 0 <= r < 6 ==> self.has(r) == other.has(r),
        ensures
            self == other,
    {
        assert forall|r: int| 0 <= r < 6 implies self.cell(r) == other.cell(r) by {
            assert(self.has(r) == other.has(r));
            assert(0 <= self.cell(r) <= 1);
            assert(0 <= other.cell(r) <= 1);
        }
        self.lemma_ext(other);
    }

    /// Two well-formed columns with the same view are the same column.
    pub proof fn lemma_view_ext(self, other: BitCol)
        requires
            self.wf(),
            other.wf(),
            self@ == other@,
        ensures
            self == other,
    {
        assert forall|r: int| 0 <= r < 6 implies self.cell(r) == other.cell(r) by {
            assert(self@[r] == self.cell(r));
            assert(other@[r] == other.cell(r));
        }
        self.lemma_ext(other);
    }

    /// A well-formed column is a mask exactly if its word has no bit outside the unit.
    proof fn lemma_mask_word(self)
        requires
            self.wf(),
        ensures
            self.is_mask() <==> self.0 & !0x9249u32 == 0,
    {
        bv_mask_word(self.0);
        if self.0 & !0x9249u32 == 0 {
            assert forall|r: int| 0 <= r < 6 implies 0 <= #[trigger] self.cell(r) <= 1 by {
                assert(r == 0 || r == 1 || r == 2 || r == 3 || r == 4 || r == 5);
            }
        }
        if self.is_mask() {
            assert(self.cell(0) <= 1 && self.cell(1) <= 1 && self.cell(2) <= 1);
            assert(self.cell(3) <= 1 && self.cell(4) <= 1 && self.cell(5) <= 1);
        }
    }

    /// The column whose every cell is 0.
    pub fn zero() -> (res: BitCol)
        ensures
            res.wf(),
            res.is_blank(),
            res.is_mask(),
    {
        let res = BitCol(0);
        proof {
            assert forall|r: int| 0 <= r < 6 implies #[trigger] res.cell(r) == 0 by {
                bv_zero(r as u32);
            }
        }
        res
    }

    /// The column that the word `inner` packs; `inner` uses the low 18 bits only.
    pub fn new(inner: u32) -> (res: BitCol)
        requires
            inner < 0x40000,
        ensures
            res.wf(),
            res.inner_spec() == inner,
    {
        BitCol(inner)
    }

    /// The packed word of this column.
    pub closed spec fn inner_spec(self) -> u32 {
        self.0
    }

    /// The column whose every cell holds `value`.
    pub fn broadcast(value: u8) -> (res: BitCol)
        requires
            value <= 7,
        ensures
            res.wf(),
            forall|r: int| 0 <= r < 6 ==> #[trigger] res.cell(r) == value,
    {
        proof {
            bv_broadcast(value as u32, 0);
        }
        let res = BitCol(UNIT * (value as u32));
        proof {
            assert forall|r: int| 0 <= r < 6 implies #[trigger] res.cell(r) == value by {
                bv_broadcast(value as u32, r as u32);
            }
        }
        res
    }

    /// The column that holds the six given pieces, bottom row first.
    pub fn from_pieces(pieces: &[Piece; 6]) -> (res: BitCol)
        ensures
            res.wf(),
            forall|r: int| 0 <= r < 6 ==> #[trigger] res.cell(r) == pieces[r].value(),
            forall|r: int| 0 <= r < 6 ==> 1 <= #[trigger] res.cell(r) <= 5,
    {
        let mut bc = BitCol::zero();
        let mut i: usize = 0;
        while i < 6
            invariant
                0 <= i <= 6,
                bc.wf(),
                forall|r: int| 0 <= r < i ==> #[trigger] bc.cell(r) == pieces[r].value(),
                forall|r: int| 0 <= r < i ==> 1 <= #[trigger] bc.cell(r) <= 5,
            decreases 6 - i,
        {
            let row = Row::from_index(i).unwrap();
            bc.set(row, pieces[i].to_inner());
            i = i + 1;
        }
        bc
    }

    /// The packed word of this column.
    pub fn inner(self) -> (res: u32)
        ensures
            res == self.inner_spec(),
            res < 0x40000,
    {
        proof {
            use_type_invariant(&self);
        }
        self.0
    }

    /// Whether every cell is 0.
    pub fn is_zero(self) -> (res: bool)
        ensures
            res == self.is_blank(),
    {
        proof {
            use_type_invariant(&self);
            let z = BitCol(0);
            assert forall|r: int| 0 <= r < 6 implies #[trigger] z.cell(r) == 0 by {
                bv_zero(r as u32);
            }
            if self.is_blank() {
                self.lemma_ext(z);
            }
        }
        self.0 == 0
    }

    /// The value of the cell in row `row`.
    pub fn get(self, row: Row) -> (res: u8)
        ensures
            res == self.cell(row.index()),
            res <= 7,
    {
        proof {
            Row::lemma_value(row);
            use_type_invariant(&row);
            bv_cell_range(self.0, row.index() as u32);
        }
        let shift: u32 = 3 * (row.to_index() as u32);
        ((self.0 >> shift) & 0b111) as u8
    }

    /// Sets the cell in row `row` to `value` and leaves the other cells as they are.
    pub fn set(&mut self, row: Row, value: u8)
        requires
            value <= 7,
        ensures
            final(self).wf(),
            forall|r: int|
                0 <= r < 6 ==> #[trigger] final(self).cell(r) == if r == row.index() {
                    value as int
                } else {
                    old(self).cell(r)
                },
    {
        proof {
            Row::lemma_value(row);
            use_type_invariant(&row);
            use_type_invariant(&*self);
        }
        let shift: u32 = 3 * (row.to_index() as u32);
        let ghost before = *self;
        proof {
            bv_set(before.0, row.index() as u32, value as u32, 0);
        }
        let bits: u32 = (self.0 & !(0b111u32 << shift)) | ((value as u32) << shift);
        *self = BitCol(bits);
        proof {
            assert forall|r: int| 0 <= r < 6 implies #[trigger] self.cell(r) == if r == row.index() {
                value as int
            } else {
                before.cell(r)
            } by {
                bv_set(before.0, row.index() as u32, value as u32, r as u32);
            }
        }
    }

    /// Whether `value` fits into a cell.
    pub fn value_is_ok(value: u8) -> (res: bool)
        ensures
            res == (value <= 7),
    {
        value <= 0b111
    }

    /// The six cell values, bottom row first.
    pub fn iter(self) -> (res: Vec<u8>)
        ensures
            res.len() == 6,
            forall|r: int| 0 <= r < 6 ==> #[trigger] res[r] == self.cell(r),
    {
        let mut res: Vec<u8> = Vec::new();
        let mut i: usize = 0;
        while i < 6
            invariant
                0 <= i <= 6,
                res.len() == i,
                forall|r: int| 0 <= r < i ==> #[trigger] res[r] == self.cell(r),
            decreases 6 - i,
        {
            let row = Row::from_index(i).unwrap();
            res.push(self.get(row));
            i = i + 1;
        }
        res
    }

    /// The six rows, bottom row first, each with the value of its cell.
    pub fn enumerate(self) -> (res: Vec<(Row, u8)>)
        ensures
            res.len() == 6,
            forall|r: int|
                0 <= r < 6 ==> (#[trigger] res[r]).0.index() == r && res[r].0.wf() && res[r].1
                    == self.cell(r),
    {
        let mut res: Vec<(Row, u8)> = Vec::new();
        let mut i: usize = 0;
        while i < 6
            invariant
                0 <= i <= 6,
                res.len() == i,
                forall|r: int|
                    0 <= r < i ==> (#[trigger] res[r]).0.index() == r && res[r].0.wf() && res[r].1
                        == self.cell(r),
            decreases 6 - i,
        {
            let row = Row::from_index(i).unwrap();
            res.push((row, self.get(row)));
            i = i + 1;
        }
        res
    }
}

impl BitCol {
    /// The cells that both columns mark.
    pub fn bitand(self, rhs: BitCol) -> (res: BitCol)
        ensures
            res.wf(),
            res.inner_spec() == self.inner_spec() & rhs.inner_spec(),
            self.is_mask() && rhs.is_mask() ==> res.is_mask() && forall|r: int|
                0 <= r < 6 ==> #[trigger] res.has(r) == (self.has(r) && rhs.has(r)),
    {
        proof {
            use_type_invariant(&self);
            use_type_invariant(&rhs);
            bv_logic(self.0, rhs.0, 0);
        }
        let res = BitCol(self.0 & rhs.0);
        proof {
            if self.is_mask() && rhs.is_mask() {
                self.lemma_mask_word();
                rhs.lemma_mask_word();
                bv_mask_logic(self.0, rhs.0, 0);
                res.lemma_mask_word();
                assert forall|r: int| 0 <= r < 6 implies #[trigger] res.has(r) == (self.has(r)
                    && rhs.has(r)) by {
                    bv_mask_logic(self.0, rhs.0, r as u32);
                }
            }
        }
        res
    }

    /// The cells that one of the columns marks.
    pub fn bitor(self, rhs: BitCol) -> (res: BitCol)
        ensures
            res.wf(),
            res.inner_spec() == self.inner_spec() | rhs.inner_spec(),
            self.is_mask() && rhs.is_mask() ==> res.is_mask() && forall|r: int|
                0 <= r < 6 ==> #[trigger] res.has(r) == (self.has(r) || rhs.has(r)),
    {
        proof {
            use_type_invariant(&self);
            use_type_invariant(&rhs);
            bv_logic(self.0, rhs.0, 0);
        }
        let res = BitCol(self.0 | rhs.0);
        proof {
            if self.is_mask() && rhs.is_mask() {
                self.lemma_mask_word();
                rhs.lemma_mask_word();
                bv_mask_logic(self.0, rhs.0, 0);
                res.lemma_mask_word();
                assert forall|r: int| 0 <= r < 6 implies #[trigger] res.has(r) == (self.has(r)
                    || rhs.has(r)) by {
                    bv_mask_logic(self.0, rhs.0, r as u32);
                }
            }
        }
        res
    }

    /// The cells that exactly one of the columns marks.
    pub fn bitxor(self, rhs: BitCol) -> (res: BitCol)
        ensures
            res.wf(),
            res.inner_spec() == self.inner_spec() ^ rhs.inner_spec(),
            self.is_mask() && rhs.is_mask() ==> res.is_mask() && forall|r: int|
                0 <= r < 6 ==> #[trigger] res.has(r) == (self.has(r) != rhs.has(r)),
    {
        proof {
            use_type_invariant(&self);
            use_type_invariant(&rhs);
            bv_logic(self.0, rhs.0, 0);
        }
        let res = BitCol(self.0 ^ rhs.0);
        proof {
            if self.is_mask() && rhs.is_mask() {
                self.lemma_mask_word();
                rhs.lemma_mask_word();
                bv_mask_logic(self.0, rhs.0, 0);
                res.lemma_mask_word();
                assert forall|r: int| 0 <= r < 6 implies #[trigger] res.has(r) == (self.has(r)
                    != rhs.has(r)) by {
                    bv_mask_logic(self.0, rhs.0, r as u32);
                }
            }
        }
        res
    }

    /// The cells that `self` marks and `rhs` does not.
    pub fn minus(self, rhs: BitCol) -> (res: BitCol)
        requires
            self.is_mask(),
            rhs.is_mask(),
        ensures
            res.wf(),
            res.is_mask(),
            forall|r: int| 0 <= r < 6 ==> #[trigger] res.has(r) == (self.has(r) && !rhs.has(r)),
    {
        proof {
            use_type_invariant(&self);
            use_type_invariant(&rhs);
            self.lemma_mask_word();
            rhs.lemma_mask_word();
            bv_mask_logic(self.0, rhs.0, 0);
        }
        let res = BitCol(self.0 & !rhs.0);
        proof {
            res.lemma_mask_word();
            assert forall|r: int| 0 <= r < 6 implies #[trigger] res.has(r) == (self.has(r)
                && !rhs.has(r)) by {
                bv_mask_logic(self.0, rhs.0, r as u32);
            }
        }
        res
    }

    /// The mask of the cells that hold `value`.
    pub fn eq_mask(self, value: u8) -> (res: BitCol)
        requires
            value <= 7,
        ensures
            res.wf(),
            res.is_mask(),
            forall|r: int| 0 <= r < 6 ==> #[trigger] res.has(r) == (self.cell(r) == value),
    {
        proof {
            use_type_invariant(&self);
            bv_broadcast(value as u32, 0);
            bv_eq_mask(self.0, value as u32, 0);
        }
        let t: u32 = self.0 ^ (UNIT * (value as u32));
        let res = BitCol(((t | (t >> 1) | (t >> 2)) & UNIT) ^ UNIT);
        proof {
            res.lemma_mask_word();
            assert forall|r: int| 0 <= r < 6 implies #[trigger] res.has(r) == (self.cell(r)
                == value) by {
                bv_eq_mask(self.0, value as u32, r as u32);
            }
        }
        res
    }

    /// The mask of the cells that are not 0.
    pub fn nonzero_mask(self) -> (res: BitCol)
        ensures
            res.wf(),
            res.is_mask(),
            forall|r: int| 0 <= r < 6 ==> #[trigger] res.has(r) == self.has(r),
    {
        proof {
            use_type_invariant(&self);
            bv_nonzero_mask(self.0, 0);
        }
        let res = BitCol((self.0 | (self.0 >> 1) | (self.0 >> 2)) & UNIT);
        proof {
            res.lemma_mask_word();
            assert forall|r: int| 0 <= r < 6 implies #[trigger] res.has(r) == self.has(r) by {
                bv_nonzero_mask(self.0, r as u32);
            }
        }
        res
    }

    /// The mask of the cells in which the two columns differ.
    pub fn diff_mask(self, other: BitCol) -> (res: BitCol)
        ensures
            res.wf(),
            res.is_mask(),
            forall|r: int| 0 <= r < 6 ==> #[trigger] res.has(r) == (self.cell(r) != other.cell(r)),
    {
        proof {
            use_type_invariant(&self);
            use_type_invariant(&other);
            bv_logic(self.0, other.0, 0);
        }
        let x = BitCol(self.0 ^ other.0);
        let res = x.nonzero_mask();
        proof {
            assert forall|r: int| 0 <= r < 6 implies #[trigger] res.has(r) == (self.cell(r)
                != other.cell(r)) by {
                bv_xor_cells(self.0, other.0, r as u32);
                assert(res.has(r) == x.has(r));
            }
        }
        res
    }

    /// The cells of `within` that `self` marks or that lie just above or below a cell
    /// that `self` marks.
    pub fn grow(self, within: BitCol) -> (res: BitCol)
        requires
            self.is_mask(),
            within.is_mask(),
        ensures
            res.wf(),
            res.is_mask(),
            forall|r: int|
                0 <= r < 6 ==> #[trigger] res.has(r) == (within.has(r) && (self.has(r) || (r > 0
                    && self.has(r - 1)) || (r < 5 && self.has(r + 1)))),
    {
        proof {
            use_type_invariant(&self);
            use_type_invariant(&within);
            self.lemma_mask_word();
            within.lemma_mask_word();
            bv_grow(self.0, within.0, 0);
        }
        let res = BitCol((self.0 | (self.0 << 3) | (self.0 >> 3)) & within.0);
        proof {
            res.lemma_mask_word();
            assert forall|r: int| 0 <= r < 6 implies #[trigger] res.has(r) == (within.has(r) && (
            self.has(r) || (r > 0 && self.has(r - 1)) || (r < 5 && self.has(r + 1)))) by {
                bv_grow(self.0, within.0, r as u32);
            }
        }
        res
    }

    /// Whether two cells that lie one above the other are both marked.
    pub fn has_vertical_pair(self) -> (res: bool)
        requires
            self.is_mask(),
        ensures
            res == exists|r: int| 0 <= r < 5 && self.has(r) && #[trigger] self.has(r + 1),
    {
        proof {
            use_type_invariant(&self);
            self.lemma_mask_word();
            bv_vertical_pair(self.0);
            if (self.0 & (self.0 >> 3)) != 0 {
                let r: int = if self.has(0) && self.has(1) {
                    0
                } else if self.has(1) && self.has(2) {
                    1
                } else if self.has(2) && self.has(3) {
                    2
                } else if self.has(3) && self.has(4) {
                    3
                } else {
                    4
                };
                assert(self.has(r) && self.has(r + 1));
            }
        }
        (self.0 & (self.0 >> 3)) != 0
    }

    /// Whether some row is marked in both columns.
    pub fn intersects(self, other: BitCol) -> (res: bool)
        requires
            self.is_mask(),
            other.is_mask(),
        ensures
            res == exists|r: int| 0 <= r < 6 && #[trigger] self.has(r) && other.has(r),
    {
        proof {
            use_type_invariant(&self);
            use_type_invariant(&other);
            self.lemma_mask_word();
            other.lemma_mask_word();
            bv_intersects(self.0, other.0);
            if (self.0 & other.0) != 0 {
                assert((self.has(0) && other.has(0)) || (self.has(1) && other.has(1)) || (self.has(
                    2,
                ) && other.has(2)) || (self.has(3) && other.has(3)) || (self.has(4) && other.has(4))
                    || (self.has(5) && other.has(5)));
            }
        }
        (self.0 & other.0) != 0
    }

    /// The number of marked cells.
    pub fn count_cells(self) -> (res: u32)
        requires
            self.is_mask(),
        ensures
            res == self.count(),
            res <= 6,
    {
        proof {
            use_type_invariant(&self);
            self.lemma_mask_word();
            bv_count(self.0);
            assert(0 <= self.cell(0) <= 1 && 0 <= self.cell(1) <= 1 && 0 <= self.cell(2) <= 1);
            assert(0 <= self.cell(3) <= 1 && 0 <= self.cell(4) <= 1 && 0 <= self.cell(5) <= 1);
        }
        ((self.0 * UNIT) >> 15) & 0b111
    }

    /// Whether exactly one cell is marked.
    pub fn is_single(self) -> (res: bool)
        requires
            self.is_mask(),
        ensures
            res == (self.count() == 1),
    {
        proof {
            use_type_invariant(&self);
            self.lemma_mask_word();
            assert(0 <= self.cell(0) <= 1 && 0 <= self.cell(1) <= 1 && 0 <= self.cell(2) <= 1);
            assert(0 <= self.cell(3) <= 1 && 0 <= self.cell(4) <= 1 && 0 <= self.cell(5) <= 1);
        }
        if self.0 == 0 {
            proof {
                bv_zero(0);
                bv_zero(1);
                bv_zero(2);
                bv_zero(3);
                bv_zero(4);
                bv_zero(5);
            }
            false
        } else {
            proof {
                bv_single(self.0);
            }
            (self.0 & (self.0 - 1)) == 0
        }
    }

    /// The lowest marked cell alone.
    pub fn lowest(self) -> (res: BitCol)
        requires
            self.is_mask(),
            !self.is_blank(),
        ensures
            res.wf(),
            res.is_mask(),
            !res.is_blank(),
            forall|r: int|
                0 <= r < 6 ==> #[trigger] res.has(r) == (self.has(r) && forall|q: int|
                    0 <= q < r ==> !self.has(q)),
    {
        proof {
            use_type_invariant(&self);
            self.lemma_mask_word();
            let z = BitCol(0);
            assert forall|r: int| 0 <= r < 6 implies #[trigger] z.cell(r) == 0 by {
                bv_zero(r as u32);
            }
            bv_lowest(self.0);
        }
        let res = BitCol(self.0 & (!self.0 + 1));
        proof {
            res.lemma_mask_word();
            assert(res.has(0) == self.has(0));
            assert(res.has(1) == (self.has(1) && !self.has(0)));
            assert(res.has(2) == (self.has(2) && !self.has(1) && !self.has(0)));
            assert(res.has(3) == (self.has(3) && !self.has(2) && !self.has(1) && !self.has(0)));
            assert(res.has(4) == (self.has(4) && !self.has(3) && !self.has(2) && !self.has(1)
                && !self.has(0)));
            assert(res.has(5) == (self.has(5) && !self.has(4) && !self.has(3) && !self.has(2)
                && !self.has(1) && !self.has(0)));
            let z = BitCol(0);
            assert(res != z);
            if res.is_blank() {
                assert forall|r: int| 0 <= r < 6 implies z.cell(r) == res.cell(r) by {
                    bv_zero(r as u32);
                }
                res.lemma_ext(z);
            }
        }
        res
    }

    /// The lowest row whose cell is not 0.
    pub fn lowest_row(self) -> (res: Row)
        requires
            !self.is_blank(),
        ensures
            res.wf(),
            self.has(res.index()),
            forall|q: int| 0 <= q < res.index() ==> !self.has(q),
    {
        let mut i: usize = 0;
        while i < 5
            invariant
                0 <= i <= 5,
                !self.is_blank(),
                forall|q: int| 0 <= q < i ==> !self.has(q),
            decreases 5 - i,
        {
            let row = Row::from_index(i).unwrap();
            if self.get(row) != 0 {
                return row;
            }
            i = i + 1;
        }
        proof {
            if !self.has(5) {
                assert forall|r: int| 0 <= r < 6 implies #[trigger] self.cell(r) == 0 by {
                    if r < 5 {
                        assert(!self.has(r));
                    }
                }
            }
        }
        Row::from_index(5).unwrap()
    }

    /// The rows whose cell is not 0, in ascending order.
    pub fn one_rows(self) -> (res: Vec<Row>)
        ensures
            forall|i: int| 0 <= i < res.len() ==> (#[trigger] res[i]).wf() && self.has(res[i].index()),
            forall|i: int, j: int| 0 <= i < j < res.len() ==> res[i].index() < res[j].index(),
            forall|r: int|
                0 <= r < 6 && self.has(r) ==> exists|i: int|
                    0 <= i < res.len() && (#[trigger] res[i]).index() == r,
    {
        let mut res: Vec<Row> = Vec::new();
        let mut i: usize = 0;
        while i < 6
            invariant
                0 <= i <= 6,
                forall|k: int|
                    0 <= k < res.len() ==> (#[trigger] res[k]).wf() && self.has(res[k].index())
                        && res[k].index() < i,
                forall|k: int, j: int| 0 <= k < j < res.len() ==> res[k].index() < res[j].index(),
                forall|r: int|
                    0 <= r < i && self.has(r) ==> exists|k: int|
                        0 <= k < res.len() && (#[trigger] res[k]).index() == r,
            decreases 6 - i,
        {
            let row = Row::from_index(i).unwrap();
            if self.get(row) != 0 {
                let ghost before = res@;
                res.push(row);
                proof {
                    assert forall|r: int| 0 <= r < i + 1 && self.has(r) implies exists|k: int|
                        0 <= k < res.len() && (#[trigger] res[k]).index() == r by {
                        if r < i {
                            let k = choose|k: int|
                                0 <= k < before.len() && (#[trigger] before[k]).index() == r;
                            assert(res[k].index() == r);
                        } else {
                            assert(res[res.len() - 1].index() == r);
                        }
                    }
                }
            }
            i = i + 1;
        }
        res
    }

    /// The column after the cells that `del` marks are taken out and the cells above
    /// them have fallen.
    pub fn remove_rows(self, del: BitCol) -> (res: BitCol)
        ensures
            res.wf(),
            res@ == fall(self@, del.rows()),
    {
        let mut out = BitCol::zero();
        let mut k: usize = 0;
        let mut i: usize = 0;
        while i < 6
            invariant
                0 <= k <= i <= 6,
                out.wf(),
                kept_below(self@, del.rows(), i as int).len() == k,
                forall|r: int|
                    0 <= r < k ==> #[trigger] out.cell(r) == kept_below(self@, del.rows(), i as int)[r],
                forall|r: int| k <= r < 6 ==> #[trigger] out.cell(r) == 0,
            decreases 6 - i,
        {
            let row = Row::from_index(i).unwrap();
            proof {
                assert(self@[i as int] == self.cell(i as int));
                assert(del.rows().contains(i as int) == del.has(i as int));
            }
            if del.get(row) == 0 {
                let dst = Row::from_index(k).unwrap();
                out.set(dst, self.get(row));
                k = k + 1;
            }
            i = i + 1;
        }
        proof {
            let kept = kept_below(self@, del.rows(), 6);
            assert forall|r: int| 0 <= r < 6 implies res_cell_matches(out, kept, r) by {
                assert(out@[r] == out.cell(r));
            }
            assert(out@ =~= fall(self@, del.rows())) by {
                assert forall|r: int| 0 <= r < 6 implies out@[r] == fall(self@, del.rows())[r] by {
                    assert(res_cell_matches(out, kept, r));
                }
            }
        }
        out
    }
}

/// The cell of row `r` of `out` is the `r`-th kept value, or 0 above the kept values.
pub open spec fn res_cell_matches(out: BitCol, kept: Seq<int>, r: int) -> bool {
    out.cell(r) == if r < kept.len() {
        kept[r]
    } else {
        0
    }
}

} // verus!
