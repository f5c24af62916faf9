//! Piece kinds.

use vstd::prelude::*;

verus! {

/// One of the five piece kinds, numbered 1 to 5.
///
/// The number 0 stands for an empty cell inside a bit-column and is never a `Piece`.
#[derive(Clone, Copy, Debug, PartialEq, Eq, Structural)]
pub struct Piece(u8);

impl Piece {
    /// Number of piece kinds.
    pub const NUM: usize = 5;

    /// Smallest number of a piece kind.
    pub const MIN_VALUE: u8 = 1;

    /// Largest number of a piece kind.
    pub const MAX_VALUE: u8 = 5;

    /// Whether the piece is well-formed: its number is 1 to 5.
    #[verifier::type_invariant]
    pub closed spec fn wf(self) -> bool {
        1 <= self.0 <= 5
    }

    /// The number of this kind.
    pub closed spec fn value(self) -> int {
        self.0 as int
    }

    /// Every piece is numbered 1 to 5.
    pub proof fn lemma_value_range(self)
        requires
            self.wf(),
        ensures
            1 <= self.value() <= 5,
    {
    }

    /// The piece numbered `inner`, if there is one.
    pub fn from_inner(inner: u8) -> (res: Option<Piece>)
        ensures
            res is Some <==> 1 <= inner <= 5,
            res is Some ==> res->0.value() == inner && res->0.wf(),
    {
        if 1 <= inner && inner <= 5 {
            Some(Piece(inner))
        } else {
            None
        }
    }

    /// The piece at 0-based index `idx`, if there is one.
    pub fn from_index(idx: usize) -> (res: Option<Piece>)
        ensures
            res is Some <==> idx < 5,
            res is Some ==> res->0.value() == idx + 1 && res->0.wf(),
    {
        if idx < 5 {
            Some(Piece((idx + 1) as u8))
        } else {
            None
        }
    }

    /// The number of this kind, 1 to 5.
    pub fn to_inner(self) -> (res: u8)
        ensures
            res == self.value(),
            1 <= res <= 5,
    {
        proof {
            use_type_invariant(&self);
        }
        self.0
    }

    /// The 0-based index of this kind, 0 to 4.
    pub fn to_index(self) -> (res: usize)
        ensures
            res == self.value() - 1,
            res < 5,
    {
        proof {
            use_type_invariant(&self);
        }
        (self.0 - 1) as usize
    }

    /// All piece kinds in ascending order.
    pub fn all() -> (res: Vec<Piece>)
        ensures
            res.len() == 5,
            forall|i: int| 0 <= i < 5 ==> (#[trigger] res[i]).value() == i + 1 && res[i].wf(),
    {
        let mut res: Vec<Piece> = Vec::new();
        let mut inner: u8 = 1;
        while inner <= 5
            invariant
                1 <= inner <= 6,
                res.len() == inner - 1,
                forall|i: int| 0 <= i < res.len() ==> (#[trigger] res[i]).value() == i + 1 && res[i].wf(),
            decreases 6 - inner,
        {
            res.push(Piece(inner));
            inner = inner + 1;
        }
        res
    }
}

} // verus!
