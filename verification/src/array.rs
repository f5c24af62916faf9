//! Arrays that are indexed by a column, a row, a square or a piece kind.

use vstd::prelude::*;
use crate::piece::Piece;
use crate::square::{Col, Row, Square};

verus! {

/// One value for each column.
#[derive(Clone, Copy, Debug, PartialEq, Eq, Hash)]
pub struct ColArray<T>(pub [T; 8]);

impl<T> ColArray<T> {
    /// The array that holds `inner[i]` for the column of index `i`.
    pub fn new(inner: [T; 8]) -> (res: Self)
        ensures
            res.0 == inner,
    {
        ColArray(inner)
    }

    /// The values, leftmost column first.
    pub fn as_array(&self) -> (res: &[T; 8])
        ensures
            *res == self.0,
    {
        &self.0
    }

    /// The value for column `col`.
    pub fn get(&self, col: Col) -> (res: &T)
        ensures
            *res == self.0[col.index()],
    {
        &self.0[col.to_index()]
    }

    /// Sets the value for column `col`.
    pub fn set(&mut self, col: Col, value: T)
        ensures
            final(self).0@ == old(self).0@.update(col.index(), value),
    {
        self.0[col.to_index()] = value;
    }
}

impl<T: Copy> ColArray<T> {
    /// The array that holds `elem` for every column.
    pub fn from_elem(elem: T) -> (res: Self)
        ensures
            forall|i: int| 0 <= i < 8 ==> res.0[i] == elem,
    {
        ColArray([elem; 8])
    }
}

/// One value for each row.
#[derive(Clone, Copy, Debug, PartialEq, Eq, Hash)]
pub struct RowArray<T>(pub [T; 6]);

impl<T> RowArray<T> {
    /// The array that holds `inner[i]` for the row of index `i`.
    pub fn new(inner: [T; 6]) -> (res: Self)
        ensures
            res.0 == inner,
    {
        RowArray(inner)
    }

    /// The values, bottom row first.
    pub fn as_array(&self) -> (res: &[T; 6])
        ensures
            *res == self.0,
    {
        &self.0
    }

    /// The value for row `row`.
    pub fn get(&self, row: Row) -> (res: &T)
        ensures
            *res == self.0[row.index()],
    {
        &self.0[row.to_index()]
    }

    /// Sets the value for row `row`.
    pub fn set(&mut self, row: Row, value: T)
        ensures
            final(self).0@ == old(self).0@.update(row.index(), value),
    {
        self.0[row.to_index()] = value;
    }
}

impl<T: Copy> RowArray<T> {
    /// The array that holds `elem` for every row.
    pub fn from_elem(elem: T) -> (res: Self)
        ensures
            forall|i: int| 0 <= i < 6 ==> res.0[i] == elem,
    {
        RowArray([elem; 6])
    }
}

/// One value for each square.
#[derive(Clone, Copy, Debug, PartialEq, Eq, Hash)]
pub struct SquareArray<T>(pub [T; 48]);

impl<T> SquareArray<T> {
    /// The array that holds `inner[i]` for the square of index `i`.
    pub fn new(inner: [T; 48]) -> (res: Self)
        ensures
            res.0 == inner,
    {
        SquareArray(inner)
    }

    /// The values, first square first.
    pub fn as_array(&self) -> (res: &[T; 48])
        ensures
            *res == self.0,
    {
        &self.0
    }

    /// The value for square `sq`.
    pub fn get(&self, sq: Square) -> (res: &T)
        ensures
            *res == self.0[sq.index()],
    {
        &self.0[sq.to_index()]
    }

    /// Sets the value for square `sq`.
    pub fn set(&mut self, sq: Square, value: T)
        ensures
            final(self).0@ == old(self).0@.update(sq.index(), value),
    {
        self.0[sq.to_index()] = value;
    }
}

impl<T: Copy> SquareArray<T> {
    /// The array that holds `elem` for every square.
    pub fn from_elem(elem: T) -> (res: Self)
        ensures
            forall|i: int| 0 <= i < 48 ==> res.0[i] == elem,
    {
        SquareArray([elem; 48])
    }
}

/// One value for each piece kind.
#[derive(Clone, Copy, Debug, PartialEq, Eq, Hash)]
pub struct PieceArray<T>(pub [T; 5]);

impl<T> PieceArray<T> {
    /// The array that holds `inner[i]` for the piece kind of index `i`.
    pub fn new(inner: [T; 5]) -> (res: Self)
        ensures
            res.0 == inner,
    {
        PieceArray(inner)
    }

    /// The values, first kind first.
    pub fn as_array(&self) -> (res: &[T; 5])
        ensures
            *res == self.0,
    {
        &self.0
    }

    /// The value for the kind `piece`.
    pub fn get(&self, piece: Piece) -> (res: &T)
        ensures
            *res == self.0[piece.value() - 1],
    {
        &self.0[piece.to_index()]
    }

    /// Sets the value for the kind `piece`.
    pub fn set(&mut self, piece: Piece, value: T)
        ensures
            final(self).0@ == old(self).0@.update(piece.value() - 1, value),
    {
        self.0[piece.to_index()] = value;
    }
}

impl<T: Copy> PieceArray<T> {
    /// The array that holds `elem` for every piece kind.
    pub fn from_elem(elem: T) -> (res: Self)
        ensures
            forall|i: int| 0 <= i < 5 ==> res.0[i] == elem,
    {
        PieceArray([elem; 5])
    }
}

} // verus!
