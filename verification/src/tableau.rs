//! The mathematical model of a tableau: what the contracts speak of.
use vstd::prelude::*;

verus! {

/// The value that a removed pair adds up to, and that a single card may have.
pub const TARGET: u8 = 13;

/// The largest value the cycle counter can hold.
pub const COUNTER_MAX: u8 = 255;

/// A tableau as plain mathematical data.
pub struct Tableau {
    /// The rows, top row first; the last element of a row is its tail.
    pub rows: Seq<Seq<u8>>,
    /// The draw pile in its permanent order: value and active flag.
    pub pile: Seq<(u8, bool)>,
    /// The position of the pile card that is on top.
    pub cursor: int,
    /// How many times the cursor has wrapped.
    pub cycles: int,
    /// How many wraps are allowed; 0 for no limit.
    pub limit: int,
}

/// The number of cards left in the rows.
pub open spec fn card_count(rows: Seq<Seq<u8>>) -> nat
    decreases rows.len(),
{
    if rows.len() == 0 {
        0
    } else {
        card_count(rows.drop_last()) + rows.last().len()
    }
}

/// Whether the tail of row `i` may be taken: the row is not empty, and it is
/// the last row or longer than the row below it.
pub open spec fn reachable(rows: Seq<Seq<u8>>, i: int) -> bool {
    &&& 0 <= i < rows.len()
    &&& rows[i].len() > 0
    &&& (i == rows.len() - 1 || rows[i].len() > rows[i + 1].len())
}

/// The rows after the tail of row `i` has been taken.
pub open spec fn without_tail(rows: Seq<Seq<u8>>, i: int) -> Seq<Seq<u8>> {
    rows.update(i, rows[i].drop_last())
}

impl Tableau {
    /// What the search asks of a tableau: a top row to empty, a pile for the
    /// cursor to point into, and a cycle counter that has room to count.
    pub open spec fn wf(self) -> bool {
        &&& self.rows.len() > 0
        &&& 0 <= self.cursor < self.pile.len()
        &&& 0 <= self.cycles
        &&& 0 <= self.limit <= COUNTER_MAX
        &&& self.limit != 0 ==> self.cycles < self.limit
        &&& self.limit == 0 ==> self.cycles + card_count(self.rows) <= COUNTER_MAX
    }

    /// The top row is empty: the puzzle is solved.
    pub open spec fn won(self) -> bool {
        self.rows.len() > 0 && self.rows[0].len() == 0
    }

    /// The tableau after the tail of row `i` has been taken.
    pub open spec fn take(self, i: int) -> Tableau {
        Tableau { rows: without_tail(self.rows, i), ..self }
    }

    /// The tableau after the pile card under the cursor has been removed.
    pub open spec fn spend(self) -> Tableau {
        Tableau { pile: self.pile.update(self.cursor, (self.pile[self.cursor].0, false)), ..self }
    }

    /// The tableau as a search that found nothing leaves it: the cards as
    /// they were and one more cycle counted, the cursor where it was, or at
    /// the start of the pile where the cycle limit ended the search.
    pub open spec fn given_up(self) -> Tableau {
        Tableau {
            cursor: if self.limit != 0 && self.cycles + 1 >= self.limit {
                0
            } else {
                self.cursor
            },
            cycles: self.cycles + 1,
            ..self
        }
    }

    /// The cycle limit is set and has been reached.
    pub open spec fn exhausted(self) -> bool {
        self.limit != 0 && self.cycles >= self.limit
    }

    /// The tableau after the cursor has moved on by one card, wrapping and
    /// counting a cycle at the end of the pile.
    pub open spec fn advance(self) -> Tableau {
        if self.cursor + 1 == self.pile.len() {
            Tableau { cursor: 0, cycles: self.cycles + 1, ..self }
        } else {
            Tableau { cursor: self.cursor + 1, ..self }
        }
    }
}

/// Taking a tail removes exactly one card.
pub proof fn lemma_take_count(rows: Seq<Seq<u8>>, i: int)
    requires
        0 <= i < rows.len(),
        rows[i].len() > 0,
    ensures
        card_count(without_tail(rows, i)) + 1 == card_count(rows),
    decreases rows.len(),
{
    let after = without_tail(rows, i);
    if i == rows.len() - 1 {
        assert(after.drop_last() =~= rows.drop_last());
    } else {
        lemma_take_count(rows.drop_last(), i);
        assert(after.drop_last() =~= without_tail(rows.drop_last(), i));
    }
}

/// Putting the tail back after taking it gives the rows as they were.
pub proof fn lemma_put_back(rows: Seq<Seq<u8>>, i: int)
    requires
        0 <= i < rows.len(),
        rows[i].len() > 0,
    ensures
        without_tail(rows, i).update(i, without_tail(rows, i)[i].push(rows[i].last())) == rows,
{
    assert(rows[i].drop_last().push(rows[i].last()) =~= rows[i]);
    assert(without_tail(rows, i).update(i, rows[i]) =~= rows);
}

} // verus!
