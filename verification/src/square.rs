//! Columns, rows and squares of the 8 x 6 grid.
//!
//! Columns run left to right and are numbered 1 to 8; rows run bottom to top and
//! are numbered 1 to 6; squares are numbered 1 to 48 column by column.

use vstd::prelude::*;

verus! {

/// Number of columns of the grid.
pub const COL_NUM: u8 = 8;

/// Number of rows of the grid.
pub const ROW_NUM: u8 = 6;

/// A column of the grid, numbered 1 (leftmost) to 8.
#[derive(Clone, Copy, Debug, PartialEq, Eq, Structural, PartialOrd, Ord)]
pub struct Col(u8);

impl Col {
    /// Number of columns.
    pub const NUM: usize = 8;

    /// Number of the leftmost column.
    pub const MIN_VALUE: u8 = 1;

    /// Number of the rightmost column.
    pub const MAX_VALUE: u8 = 8;

    /// Whether the column is well-formed: its number is 1 to 8.
    #[verifier::type_invariant]
    pub closed spec fn wf(self) -> bool {
        1 <= self.0 <= 8
    }

    /// The number of this column.
    pub closed spec fn value(self) -> int {
        self.0 as int
    }

    /// The 0-based index of this column.
    pub open spec fn index(self) -> int {
        self.value() - 1
    }

    /// A well-formed column is numbered 1 to 8, and its number determines it.
    pub broadcast proof fn lemma_value(self)
        ensures
            #![trigger self.value()]
            self.wf() <==> 1 <= self.value() <= 8,
            forall|other: Col| #[trigger] other.value() == self.value() ==> other == self,
    {
    }

    /// The column numbered `inner`, if there is one.
    pub fn from_inner(inner: u8) -> (res: Option<Col>)
        ensures
            res is Some <==> 1 <= inner <= 8,
            res is Some ==> res->0.value() == inner && res->0.wf(),
    {
        if 1 <= inner && inner <= 8 {
            Some(Col(inner))
        } else {
            None
        }
    }

    /// The column at 0-based index `idx`, if there is one.
    pub fn from_index(idx: usize) -> (res: Option<Col>)
        ensures
            res is Some <==> idx < 8,
            res is Some ==> res->0.index() == idx && res->0.wf(),
    {
        if idx < 8 {
            Some(Col((idx + 1) as u8))
        } else {
            None
        }
    }

    /// The number of this column, 1 to 8.
    pub fn to_inner(self) -> (res: u8)
        ensures
            res == self.value(),
            1 <= res <= 8,
    {
        proof {
            use_type_invariant(&self);
        }
        self.0
    }

    /// The 0-based index of this column, 0 to 7.
    pub fn to_index(self) -> (res: usize)
        ensures
            res == self.index(),
            res < 8,
    {
        proof {
            use_type_invariant(&self);
        }
        (self.0 - 1) as usize
    }

    /// All columns from left to right.
    pub fn all() -> (res: Vec<Col>)
        ensures
            res.len() == 8,
            forall|i: int| 0 <= i < 8 ==> (#[trigger] res[i]).index() == i && res[i].wf(),
    {
        let mut res: Vec<Col> = Vec::new();
        let mut inner: u8 = 1;
        while inner <= 8
            invariant
                1 <= inner <= 9,
                res.len() == inner - 1,
                forall|i: int| 0 <= i < res.len() ==> (#[trigger] res[i]).index() == i && res[i].wf(),
            decreases 9 - inner,
        {
            res.push(Col(inner));
            inner = inner + 1;
        }
        res
    }

    /// The column to the left, if there is one.
    pub fn prev(self) -> (res: Option<Col>)
        ensures
            res is Some <==> self.value() > 1,
            res is Some ==> res->0.value() == self.value() - 1 && res->0.wf(),
    {
        proof {
            use_type_invariant(&self);
        }
        if self.0 != 1 {
            Some(Col(self.0 - 1))
        } else {
            None
        }
    }

    /// The column to the left of a column that is not the leftmost.
    pub fn prev_unchecked(self) -> (res: Col)
        requires
            self.value() > 1,
        ensures
            res.value() == self.value() - 1,
            res.wf(),
    {
        proof {
            use_type_invariant(&self);
        }
        Col(self.0 - 1)
    }

    /// The column to the right, if there is one.
    pub fn next(self) -> (res: Option<Col>)
        ensures
            res is Some <==> self.value() < 8,
            res is Some ==> res->0.value() == self.value() + 1 && res->0.wf(),
    {
        proof {
            use_type_invariant(&self);
        }
        if self.0 != 8 {
            Some(Col(self.0 + 1))
        } else {
            None
        }
    }

    /// The column to the right of a column that is not the rightmost.
    pub fn next_unchecked(self) -> (res: Col)
        requires
            self.value() < 8,
        ensures
            res.value() == self.value() + 1,
            res.wf(),
    {
        proof {
            use_type_invariant(&self);
        }
        Col(self.0 + 1)
    }
}

/// A row of the grid, numbered 1 (bottom) to 6.
#[derive(Clone, Copy, Debug, PartialEq, Eq, Structural, PartialOrd, Ord)]
pub struct Row(u8);

impl Row {
    /// Number of rows.
    pub const NUM: usize = 6;

    /// Number of the bottom row.
    pub const MIN_VALUE: u8 = 1;

    /// Number of the top row.
    pub const MAX_VALUE: u8 = 6;

    /// Whether the row is well-formed: its number is 1 to 6.
    #[verifier::type_invariant]
    pub closed spec fn wf(self) -> bool {
        1 <= self.0 <= 6
    }

    /// The number of this row.
    pub closed spec fn value(self) -> int {
        self.0 as int
    }

    /// The 0-based index of this row.
    pub open spec fn index(self) -> int {
        self.value() - 1
    }

    /// A well-formed row is numbered 1 to 6, and its number determines it.
    pub broadcast proof fn lemma_value(self)
        ensures
            #![trigger self.value()]
            self.wf() <==> 1 <= self.value() <= 6,
            forall|other: Row| #[trigger] other.value() == self.value() ==> other == self,
    {
    }

    /// The row numbered `inner`, if there is one.
    pub fn from_inner(inner: u8) -> (res: Option<Row>)
        ensures
            res is Some <==> 1 <= inner <= 6,
            res is Some ==> res->0.value() == inner && res->0.wf(),
    {
        if 1 <= inner && inner <= 6 {
            Some(Row(inner))
        } else {
            None
        }
    }

    /// The row at 0-based index `idx`, if there is one.
    pub fn from_index(idx: usize) -> (res: Option<Row>)
        ensures
            res is Some <==> idx < 6,
            res is Some ==> res->0.index() == idx && res->0.wf(),
    {
        if idx < 6 {
            Some(Row((idx + 1) as u8))
        } else {
            None
        }
    }

    /// The number of this row, 1 to 6.
    pub fn to_inner(self) -> (res: u8)
        ensures
            res == self.value(),
            1 <= res <= 6,
    {
        proof {
            use_type_invariant(&self);
        }
        self.0
    }

    /// The 0-based index of this row, 0 to 5.
    pub fn to_index(self) -> (res: usize)
        ensures
            res == self.index(),
            res < 6,
    {
        proof {
            use_type_invariant(&self);
        }
        (self.0 - 1) as usize
    }

    /// All rows from bottom to top.
    pub fn all() -> (res: Vec<Row>)
        ensures
            res.len() == 6,
            forall|i: int| 0 <= i < 6 ==> (#[trigger] res[i]).index() == i && res[i].wf(),
    {
        let mut res: Vec<Row> = Vec::new();
        let mut inner: u8 = 1;
        while inner <= 6
            invariant
                1 <= inner <= 7,
                res.len() == inner - 1,
                forall|i: int| 0 <= i < res.len() ==> (#[trigger] res[i]).index() == i && res[i].wf(),
            decreases 7 - inner,
        {
            res.push(Row(inner));
            inner = inner + 1;
        }
        res
    }
}

/// A square of the grid, numbered 1 to 48 column by column:
/// the square in column `c` and row `r` has the number `6 * (c - 1) + r`.
#[derive(Clone, Copy, Debug, PartialEq, Eq, Structural, PartialOrd, Ord)]
pub struct Square(u8);

impl Square {
    /// Number of squares.
    pub const NUM: usize = 48;

    /// Smallest number of a square.
    pub const MIN_VALUE: u8 = 1;

    /// Largest number of a square.
    pub const MAX_VALUE: u8 = 48;

    /// Whether the square is well-formed: its number is 1 to 48.
    #[verifier::type_invariant]
    pub closed spec fn wf(self) -> bool {
        1 <= self.0 <= 48
    }

    /// The number of this square.
    pub closed spec fn value(self) -> int {
        self.0 as int
    }

    /// The 0-based index of this square.
    pub open spec fn index(self) -> int {
        self.value() - 1
    }

    /// The 0-based index of the column of this square.
    pub open spec fn col_index(self) -> int {
        self.index() / 6
    }

    /// The 0-based index of the row of this square.
    pub open spec fn row_index(self) -> int {
        self.index() % 6
    }

    /// The cell of the grid that this square names: 0-based column and row.
    pub open spec fn cell(self) -> (int, int) {
        (self.col_index(), self.row_index())
    }

    /// A well-formed square is numbered 1 to 48, and its number determines it.
    pub broadcast proof fn lemma_value(self)
        ensures
            #![trigger self.value()]
            self.wf() <==> 1 <= self.value() <= 48,
            forall|other: Square| #[trigger] other.value() == self.value() ==> other == self,
    {
    }

    /// The cell of a well-formed square lies in the grid and determines the square.
    pub proof fn lemma_cell(self)
        requires
            self.wf(),
        ensures
            0 <= self.col_index() < 8,
            0 <= self.row_index() < 6,
            self.index() == 6 * self.col_index() + self.row_index(),
    {
    }

    /// The square numbered `inner`, if there is one.
    pub fn from_inner(inner: u8) -> (res: Option<Square>)
        ensures
            res is Some <==> 1 <= inner <= 48,
            res is Some ==> res->0.value() == inner && res->0.wf(),
    {
        if 1 <= inner && inner <= 48 {
            Some(Square(inner))
        } else {
            None
        }
    }

    /// The square at 0-based index `idx`, if there is one.
    pub fn from_index(idx: usize) -> (res: Option<Square>)
        ensures
            res is Some <==> idx < 48,
            res is Some ==> res->0.index() == idx && res->0.wf(),
    {
        if idx < 48 {
            Some(Square((idx + 1) as u8))
        } else {
            None
        }
    }

    /// The number of this square, 1 to 48.
    pub fn to_inner(self) -> (res: u8)
        ensures
            res == self.value(),
            1 <= res <= 48,
    {
        proof {
            use_type_invariant(&self);
        }
        self.0
    }

    /// The 0-based index of this square, 0 to 47.
    pub fn to_index(self) -> (res: usize)
        ensures
            res == self.index(),
            res < 48,
    {
        proof {
            use_type_invariant(&self);
        }
        (self.0 - 1) as usize
    }

    /// All squares in ascending order.
    pub fn all() -> (res: Vec<Square>)
        ensures
            res.len() == 48,
            forall|i: int| 0 <= i < 48 ==> (#[trigger] res[i]).index() == i && res[i].wf(),
    {
        let mut res: Vec<Square> = Vec::new();
        let mut inner: u8 = 1;
        while inner <= 48
            invariant
                1 <= inner <= 49,
                res.len() == inner - 1,
                forall|i: int| 0 <= i < res.len() ==> (#[trigger] res[i]).index() == i && res[i].wf(),
            decreases 49 - inner,
        {
            res.push(Square(inner));
            inner = inner + 1;
        }
        res
    }

    /// The square in column `col` and row `row`.
    pub fn new(col: Col, row: Row) -> (res: Square)
        ensures
            res.wf(),
            res.value() == 6 * (col.value() - 1) + row.value(),
            res.col_index() == col.index(),
            res.row_index() == row.index(),
    {
        let c: u8 = col.to_inner();
        let r: u8 = row.to_inner();
        Square(6 * (c - 1) + r)
    }

    /// The column of this square.
    pub fn col(self) -> (res: Col)
        ensures
            res.wf(),
            res.index() == self.col_index(),
    {
        proof {
            use_type_invariant(&self);
        }
        Col(1 + (self.0 - 1) / 6)
    }

    /// The row of this square.
    pub fn row(self) -> (res: Row)
        ensures
            res.wf(),
            res.index() == self.row_index(),
    {
        proof {
            use_type_invariant(&self);
        }
        Row(1 + (self.0 - 1) % 6)
    }
}

} // verus!
