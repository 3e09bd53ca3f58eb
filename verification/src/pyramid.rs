//! The executable tableau.
use vstd::prelude::*;
use crate::tableau::{Tableau, reachable, without_tail, COUNTER_MAX};

verus! {

/// A tableau: the rows, the draw pile and the bookkeeping of the pile's
/// traversal.
pub struct Pyramid {
    rows: Vec<Vec<u8>>,
    ground: Vec<(u8, bool)>,
    ground_index: usize,
    reset_count: u8,
    reset_limit: u8,
}

impl View for Pyramid {
    type V = Tableau;

    closed spec fn view(&self) -> Tableau {
        Tableau {
            rows: Seq::new(self.rows.len() as nat, |i: int| self.rows[i]@),
            pile: self.ground@,
            cursor: self.ground_index as int,
            cycles: self.reset_count as int,
            limit: self.reset_limit as int,
        }
    }
}

impl Pyramid {
    /// An empty tableau with the given cycle limit (0 for no limit).
    pub fn new(reset_limit: u8) -> (p: Self)
        ensures
            p@ == (Tableau {
                rows: Seq::empty(),
                pile: Seq::empty(),
                cursor: 0,
                cycles: 0,
                limit: reset_limit as int,
            }),
    {
        let p = Pyramid {
            rows: Vec::new(),
            ground: Vec::new(),
            ground_index: 0,
            reset_count: 0,
            reset_limit,
        };
        assert(p@.rows =~= Seq::empty());
        assert(p@.pile =~= Seq::empty());
        p
    }

    /// Appends a row below the rows already there.
    pub fn add_one_row(self, card: &[u8]) -> (p: Self)
        ensures
            p@ == (Tableau { rows: self@.rows.push(card@), ..self@ }),
    {
        let mut p = self;
        let mut row: Vec<u8> = Vec::new();
        let mut k: usize = 0;
        while k < card.len()
            invariant
                k <= card@.len(),
                row@ == card@.take(k as int),
            decreases card@.len() - k,
        {
            row.push(card[k]);
            k = k + 1;
            assert(row@ =~= card@.take(k as int));
        }
        assert(row@ =~= card@);
        p.rows.push(row);
        assert(p@.rows =~= self@.rows.push(card@));
        p
    }

    /// Appends the given cards to the draw pile, each of them active.
    pub fn add_grounds(self, ground: &[u8]) -> (p: Self)
        ensures
            p@ == (Tableau { pile: self@.pile + ground@.map_values(|v: u8| (v, true)), ..self@ }),
    {
        let mut p = self;
        let ghost added = ground@.map_values(|v: u8| (v, true));
        let mut k: usize = 0;
        while k < ground.len()
            invariant
                k <= ground@.len(),
                added == ground@.map_values(|v: u8| (v, true)),
                p.ground@ == self.ground@ + added.take(k as int),
                p.rows == self.rows,
                p.ground_index == self.ground_index,
                p.reset_count == self.reset_count,
                p.reset_limit == self.reset_limit,
            decreases ground@.len() - k,
        {
            p.ground.push((ground[k], true));
            k = k + 1;
            assert(p.ground@ =~= self.ground@ + added.take(k as int));
        }
        assert(added.take(k as int) =~= added);
        p
    }

    /// Whether the tail of the given row may be taken.
    pub fn last_can_move(&self, row_index: usize) -> (b: bool)
        requires
            row_index < self@.rows.len(),
        ensures
            b == reachable(self@.rows, row_index as int),
    {
        if self.rows[row_index].len() == 0 {
            return false;
        }
        if row_index == self.rows.len() - 1 {
            return true;
        }
        self.rows[row_index].len() > self.rows[row_index + 1].len()
    }

    /// The number of rows.
    pub(crate) fn row_count(&self) -> (n: usize)
        ensures
            n == self@.rows.len(),
    {
        self.rows.len()
    }

    /// Whether the top row is empty.
    pub(crate) fn is_won(&self) -> (b: bool)
        requires
            self@.rows.len() > 0,
        ensures
            b == self@.won(),
    {
        self.rows[0].len() == 0
    }

    /// Puts a card back as the tail of row `i`.
    pub(crate) fn put_tail(&mut self, i: usize, v: u8)
        requires
            i < old(self)@.rows.len(),
        ensures
            final(self)@ == (Tableau {
                rows: old(self)@.rows.update(i as int, old(self)@.rows[i as int].push(v)),
                ..old(self)@
            }),
    {
        self.rows[i].push(v);
        assert(self@.rows =~= old(self)@.rows.update(i as int, old(self)@.rows[i as int].push(v)));
    }

    /// The pile card under the cursor.
    pub(crate) fn top(&self) -> (card: (u8, bool))
        requires
            0 <= self@.cursor < self@.pile.len(),
        ensures
            card == self@.pile[self@.cursor],
    {
        self.ground[self.ground_index]
    }

    /// Marks the pile card under the cursor as removed or as present.
    pub(crate) fn set_active(&mut self, active: bool)
        requires
            0 <= old(self)@.cursor < old(self)@.pile.len(),
        ensures
            final(self)@ == (Tableau {
                pile: old(self)@.pile.update(
                    old(self)@.cursor,
                    (old(self)@.pile[old(self)@.cursor].0, active),
                ),
                ..old(self)@
            }),
    {
        let value = self.ground[self.ground_index].0;
        self.ground[self.ground_index] = (value, active);
        assert(self@.rows =~= old(self)@.rows);
    }

    /// Moves the cursor on by one card. At the end of the pile the cursor
    /// wraps and a cycle is counted; the result says whether it did.
    pub(crate) fn advance(&mut self) -> (wrapped: bool)
        requires
            0 <= old(self)@.cursor < old(self)@.pile.len(),
            old(self)@.cursor + 1 == old(self)@.pile.len() ==> old(self)@.cycles < COUNTER_MAX,
        ensures
            final(self)@ == old(self)@.advance(),
            wrapped == (old(self)@.cursor + 1 == old(self)@.pile.len()),
    {
        assert(self.ground_index < self.ground.len());
        self.ground_index = self.ground_index + 1;
        let wrapped = self.ground_index == self.ground.len();
        if wrapped {
            self.ground_index = 0;
            self.reset_count = self.reset_count + 1;
        }
        assert(self@.rows =~= old(self)@.rows);
        wrapped
    }

    /// Whether the cycle limit forbids going on with the pile.
    pub(crate) fn exhausted(&self) -> (b: bool)
        ensures
            b == self@.exhausted(),
    {
        self.reset_limit != 0 && self.reset_count >= self.reset_limit
    }

    /// The position of the cursor.
    pub(crate) fn cursor(&self) -> (c: usize)
        ensures
            c == self@.cursor,
    {
        self.ground_index
    }

    /// The length of the pile.
    pub(crate) fn pile_len(&self) -> (n: usize)
        ensures
            n == self@.pile.len(),
    {
        self.ground.len()
    }

    /// Takes the tail of row `i`.
    pub(crate) fn take_tail(&mut self, i: usize) -> (v: u8)
        requires
            i < old(self)@.rows.len(),
            old(self)@.rows[i as int].len() > 0,
        ensures
            v == old(self)@.rows[i as int].last(),
            final(self)@ == old(self)@.take(i as int),
    {
        let v = self.rows[i].pop().unwrap();
        assert(self@.rows =~= without_tail(old(self)@.rows, i as int));
        v
    }
}

impl Clone for Pyramid {
    /// An independent copy: the same tableau, sharing nothing.
    fn clone(&self) -> (p: Self)
        ensures
            p@ == self@,
    {
        let mut rows: Vec<Vec<u8>> = Vec::new();
        let mut i: usize = 0;
        while i < self.rows.len()
            invariant
                i <= self.rows.len(),
                rows.len() == i,
                forall|k: int| 0 <= k < i ==> (#[trigger] rows[k])@ == self.rows[k]@,
            decreases self.rows.len() - i,
        {
            let mut row: Vec<u8> = Vec::new();
            let mut k: usize = 0;
            while k < self.rows[i].len()
                invariant
                    i < self.rows.len(),
                    k <= self.rows[i as int].len(),
                    row@ == self.rows[i as int]@.take(k as int),
                decreases self.rows[i as int].len() - k,
            {
                row.push(self.rows[i][k]);
                k = k + 1;
                assert(row@ =~= self.rows[i as int]@.take(k as int));
            }
            assert(row@ =~= self.rows[i as int]@);
            rows.push(row);
            i = i + 1;
        }
        let mut ground: Vec<(u8, bool)> = Vec::new();
        let mut g: usize = 0;
        while g < self.ground.len()
            invariant
                g <= self.ground.len(),
                ground@ == self.ground@.take(g as int),
            decreases self.ground.len() - g,
        {
            ground.push(self.ground[g]);
            g = g + 1;
            assert(ground@ =~= self.ground@.take(g as int));
        }
        assert(ground@ =~= self.ground@);
        let p = Pyramid {
            rows,
            ground,
            ground_index: self.ground_index,
            reset_count: self.reset_count,
            reset_limit: self.reset_limit,
        };
        assert(p@.rows =~= self@.rows);
        p
    }
}

} // verus!
