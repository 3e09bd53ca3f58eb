//! The vocabulary of moves that a solution trace is written in.
use vstd::prelude::*;

verus! {

/// One recorded action. A move is plain data: the solver appends it to the
/// log when it takes the action and never reads it back.
#[derive(Debug, PartialEq, Eq)]
pub enum Move {
    /// The active pile card of this value was passed over.
    GroundPass(u8),
    /// Two pile cards left together.
    GroundMatch { a: u8, b: u8 },
    /// A pile card left alone.
    GroundOne,
    /// The pile cursor wrapped back to the first pile card.
    GroundReset,
    /// The tails of rows `index_a < index_b` left together.
    RowsMatch { index_a: usize, a: u8, index_b: usize, b: u8 },
    /// The tail of this row left alone.
    RowOne(usize),
    /// The tail of row `index_a` left together with the pile card under the cursor.
    RowsGroundMatch { ground_b: u8, index_a: usize, a: u8 },
}

impl Clone for Move {
    fn clone(&self) -> (m: Self)
        ensures
            m == *self,
    {
        match self {
            Move::GroundPass(v) => Move::GroundPass(*v),
            Move::GroundMatch { a, b } => Move::GroundMatch { a: *a, b: *b },
            Move::GroundOne => Move::GroundOne,
            Move::GroundReset => Move::GroundReset,
            Move::RowsMatch { index_a, a, index_b, b } => Move::RowsMatch {
                index_a: *index_a,
                a: *a,
                index_b: *index_b,
                b: *b,
            },
            Move::RowOne(i) => Move::RowOne(*i),
            Move::RowsGroundMatch { ground_b, index_a, a } => Move::RowsGroundMatch {
                ground_b: *ground_b,
                index_a: *index_a,
                a: *a,
            },
        }
    }
}

} // verus!
