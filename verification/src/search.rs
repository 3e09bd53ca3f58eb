//! What the depth-first search finds, as a function of the tableau.
//!
//! The search tries moves in a fixed order and commits to the first one
//! whose continuation succeeds: the rows in ascending order, a row alone
//! before its pairs, then the pile from the cursor on, once around.
use vstd::prelude::*;
use crate::moves::Move;
use crate::tableau::{Tableau, TARGET, card_count, lemma_take_count, reachable};

verus! {

/// `head` followed by the trace in `rest`, where there is one.
pub open spec fn prefixed(head: Seq<Move>, rest: Option<Seq<Move>>) -> Option<Seq<Move>> {
    match rest {
        Some(t) => Some(head + t),
        None => None,
    }
}

/// What moving the cursor on from the card under it logs: a pass if that
/// card is still there, and a reset if the cursor wraps.
pub open spec fn pass_log(s: Tableau) -> Seq<Move> {
    let pass = if s.pile[s.cursor].1 {
        seq![Move::GroundPass(s.pile[s.cursor].0)]
    } else {
        Seq::empty()
    };
    if s.cursor + 1 == s.pile.len() {
        pass.push(Move::GroundReset)
    } else {
        pass
    }
}

/// The trace found from `s`: empty if the top row is empty already, else
/// the first success among the row moves, else among the pile moves.
pub open spec fn search(s: Tableau) -> Option<Seq<Move>>
    decreases card_count(s.rows), 5int, 0int,
{
    if s.won() {
        Some(Seq::empty())
    } else {
        match search_rows(s, 0) {
            Some(t) => Some(t),
            None => scan(s, s.pile.len() as int),
        }
    }
}

/// The first success among the row moves whose first row is `i` or later.
pub open spec fn search_rows(s: Tableau, i: int) -> Option<Seq<Move>>
    decreases card_count(s.rows), 4int, s.rows.len() - i,
{
    if i < 0 || i >= s.rows.len() {
        None
    } else if !reachable(s.rows, i) {
        search_rows(s, i + 1)
    } else if s.rows[i].last() == TARGET {
        proof {
            lemma_take_count(s.rows, i);
        }
        match search(s.take(i)) {
            Some(t) => Some(seq![Move::RowOne(i as usize)] + t),
            None => search_rows(s, i + 1),
        }
    } else {
        match search_pairs(s, i, i + 1) {
            Some(t) => Some(t),
            None => search_rows(s, i + 1),
        }
    }
}

/// The first success among the pairs of row `i` with a row `j` or later.
pub open spec fn search_pairs(s: Tableau, i: int, j: int) -> Option<Seq<Move>>
    decreases card_count(s.rows), 3int, s.rows.len() - j,
{
    if !reachable(s.rows, i) || j <= i || j >= s.rows.len() {
        None
    } else if reachable(s.rows, j) && s.rows[i].last() + s.rows[j].last() == TARGET {
        proof {
            lemma_take_count(s.rows, i);
            lemma_take_count(s.take(i).rows, j);
        }
        match search(s.take(i).take(j)) {
            Some(t) => Some(
                seq![
                    Move::RowsMatch {
                        index_a: i as usize,
                        a: s.rows[i].last(),
                        index_b: j as usize,
                        b: s.rows[j].last(),
                    },
                ] + t,
            ),
            None => search_pairs(s, i, j + 1),
        }
    } else {
        search_pairs(s, i, j + 1)
    }
}

/// The first success among the pile moves, with `n` pile cards still to
/// look at, the first of them under the cursor. The passes and resets on
/// the way to the successful move are part of the trace.
pub open spec fn scan(s: Tableau, n: int) -> Option<Seq<Move>>
    decreases card_count(s.rows), 2int, n,
{
    if n <= 0 || !(0 <= s.cursor < s.pile.len()) {
        None
    } else {
        let found = if s.pile[s.cursor].1 {
            scan_rows(s, 0)
        } else {
            None
        };
        match found {
            Some(t) => Some(t),
            None => if s.cursor + 1 == s.pile.len() && s.advance().exhausted() {
                None
            } else {
                prefixed(pass_log(s), scan(s.advance(), n - 1))
            },
        }
    }
}

/// The first success among the pairs of the pile card under the cursor
/// with row `r` or a later one, the last row left out.
pub open spec fn scan_rows(s: Tableau, r: int) -> Option<Seq<Move>>
    decreases card_count(s.rows), 1int, s.rows.len() - r,
{
    if r < 0 || r + 1 >= s.rows.len() {
        None
    } else if reachable(s.rows, r) && s.rows[r].last() + s.pile[s.cursor].0 == TARGET {
        proof {
            lemma_take_count(s.rows, r);
        }
        match search(s.take(r).spend()) {
            Some(t) => Some(
                seq![
                    Move::RowsGroundMatch {
                        ground_b: s.pile[s.cursor].0,
                        index_a: r as usize,
                        a: s.rows[r].last(),
                    },
                ] + t,
            ),
            None => scan_rows(s, r + 1),
        }
    } else {
        scan_rows(s, r + 1)
    }
}

/// The tableau after the cursor has moved on `k` times.
pub open spec fn ahead(s: Tableau, k: nat) -> Tableau
    decreases k,
{
    if k == 0 {
        s
    } else {
        ahead(s.advance(), (k - 1) as nat)
    }
}

/// Whether the cycle limit ends a scan that moves the cursor on `k` times.
pub open spec fn stopped_within(s: Tableau, k: nat) -> bool
    decreases k,
{
    k > 0 && ((s.cursor + 1 == s.pile.len() && s.advance().exhausted()) || stopped_within(
        s.advance(),
        (k - 1) as nat,
    ))
}

/// The tail of row `i` may leave alone, and after that the search finds a
/// trace.
pub open spec fn single_succeeds(s: Tableau, i: int) -> bool {
    &&& reachable(s.rows, i)
    &&& s.rows[i].last() == TARGET
    &&& search(s.take(i)).is_some()
}

/// The tails of rows `i` and `j` may leave together, the upper one not
/// having the target value itself, and after that the search finds a trace.
pub open spec fn pair_succeeds(s: Tableau, i: int, j: int) -> bool {
    &&& i < j
    &&& reachable(s.rows, i)
    &&& reachable(s.rows, j)
    &&& s.rows[i].last() != TARGET
    &&& s.rows[i].last() + s.rows[j].last() == TARGET
    &&& search(s.take(i).take(j)).is_some()
}

/// The pile card `k` places on from the cursor, which one scan of the pile
/// gets to within the cycle limit, may leave together with the tail of row
/// `r`, a row above the last, and after that the search finds a trace.
pub open spec fn pile_pair_succeeds(s: Tableau, k: nat, r: int) -> bool {
    let h = ahead(s, k);
    &&& 0 <= s.cursor < s.pile.len()
    &&& k < s.pile.len()
    &&& !stopped_within(s, k)
    &&& h.pile[h.cursor].1
    &&& 0 <= r
    &&& r + 1 < h.rows.len()
    &&& reachable(h.rows, r)
    &&& h.rows[r].last() + h.pile[h.cursor].0 == TARGET
    &&& search(h.take(r).spend()).is_some()
}

/// Whether row `i` has a move, alone or in a pair, after which the search
/// finds a trace.
pub open spec fn row_succeeds(s: Tableau, i: int) -> bool {
    reachable(s.rows, i) && if s.rows[i].last() == TARGET {
        search(s.take(i)).is_some()
    } else {
        search_pairs(s, i, i + 1).is_some()
    }
}

proof fn lemma_rows_from(s: Tableau, from: int, i: int)
    requires
        0 <= from <= i,
        row_succeeds(s, i),
    ensures
        search_rows(s, from).is_some(),
    decreases i - from,
{
    if from < i {
        lemma_rows_from(s, from + 1, i);
    }
}

proof fn lemma_pairs_from(s: Tableau, i: int, from: int, j: int)
    requires
        i < from <= j,
        pair_succeeds(s, i, j),
    ensures
        search_pairs(s, i, from).is_some(),
    decreases j - from,
{
    if from < j {
        lemma_pairs_from(s, i, from + 1, j);
    }
}

proof fn lemma_scan_rows_from(s: Tableau, from: int, r: int)
    requires
        0 <= from <= r,
        pile_pair_succeeds(s, 0, r),
    ensures
        scan_rows(s, from).is_some(),
    decreases r - from,
{
    if from < r {
        lemma_scan_rows_from(s, from + 1, r);
    }
}

proof fn lemma_scan_from(s: Tableau, n: int, k: nat, r: int)
    requires
        k < n,
        pile_pair_succeeds(s, k, r),
    ensures
        scan(s, n).is_some(),
    decreases k,
{
    if k == 0 {
        lemma_scan_rows_from(s, 0, r);
    } else {
        lemma_scan_from(s.advance(), n - 1, (k - 1) as nat, r);
    }
}

proof fn lemma_first_row(s: Tableau, from: int) -> (i: int)
    requires
        0 <= from,
        search_rows(s, from).is_some(),
    ensures
        row_succeeds(s, i),
    decreases s.rows.len() - from,
{
    if row_succeeds(s, from) {
        from
    } else {
        lemma_first_row(s, from + 1)
    }
}

proof fn lemma_first_pair(s: Tableau, i: int, from: int) -> (j: int)
    requires
        i < from,
        s.rows[i].last() != TARGET,
        search_pairs(s, i, from).is_some(),
    ensures
        pair_succeeds(s, i, j),
    decreases s.rows.len() - from,
{
    if pair_succeeds(s, i, from) {
        from
    } else {
        lemma_first_pair(s, i, from + 1)
    }
}

proof fn lemma_first_scan_row(s: Tableau, from: int) -> (r: int)
    requires
        0 <= from,
        0 <= s.cursor < s.pile.len(),
        s.pile[s.cursor].1,
        scan_rows(s, from).is_some(),
    ensures
        pile_pair_succeeds(s, 0, r),
    decreases s.rows.len() - from,
{
    if pile_pair_succeeds(s, 0, from) {
        from
    } else {
        lemma_first_scan_row(s, from + 1)
    }
}

proof fn lemma_first_scan(s: Tableau, n: int) -> (found: (nat, int))
    requires
        n <= s.pile.len(),
        scan(s, n).is_some(),
    ensures
        found.0 < n,
        pile_pair_succeeds(s, found.0, found.1),
    decreases n,
{
    if s.pile[s.cursor].1 && scan_rows(s, 0).is_some() {
        (0, lemma_first_scan_row(s, 0))
    } else {
        let (k, r) = lemma_first_scan(s.advance(), n - 1);
        ((k + 1) as nat, r)
    }
}

/// The search passes over no single card.
pub proof fn lemma_single_is_tried(s: Tableau, i: int)
    requires
        single_succeeds(s, i),
    ensures
        search(s).is_some(),
{
    lemma_rows_from(s, 0, i);
}

/// The search passes over no pair of rows.
pub proof fn lemma_pair_is_tried(s: Tableau, i: int, j: int)
    requires
        pair_succeeds(s, i, j),
    ensures
        search(s).is_some(),
{
    lemma_pairs_from(s, i, i + 1, j);
    lemma_rows_from(s, 0, i);
}

/// The search passes over no pile card on its way once around the pile.
pub proof fn lemma_pile_pair_is_tried(s: Tableau, k: nat, r: int)
    requires
        pile_pair_succeeds(s, k, r),
    ensures
        search(s).is_some(),
{
    lemma_scan_from(s, s.pile.len() as int, k, r);
}

/// The search is exhaustive: it finds a trace exactly where the top row is
/// empty or one of the moves it may make leads to a tableau where it finds
/// one.
pub proof fn lemma_search_is_exhaustive(s: Tableau)
    ensures
        search(s).is_some() <==> {
            ||| s.won()
            ||| exists|i: int| single_succeeds(s, i)
            ||| exists|i: int, j: int| pair_succeeds(s, i, j)
            ||| exists|k: nat, r: int| pile_pair_succeeds(s, k, r)
        },
{
    if search(s).is_some() && !s.won() {
        if search_rows(s, 0).is_some() {
            let i = lemma_first_row(s, 0);
            if s.rows[i].last() == TARGET {
                assert(single_succeeds(s, i));
            } else {
                let j = lemma_first_pair(s, i, i + 1);
                assert(pair_succeeds(s, i, j));
            }
        } else {
            let (k, r) = lemma_first_scan(s, s.pile.len() as int);
            assert(pile_pair_succeeds(s, k, r));
        }
    }
    if exists|i: int| single_succeeds(s, i) {
        let i = choose|i: int| single_succeeds(s, i);
        lemma_single_is_tried(s, i);
    }
    if exists|i: int, j: int| pair_succeeds(s, i, j) {
        let (i, j) = choose|i: int, j: int| pair_succeeds(s, i, j);
        lemma_pair_is_tried(s, i, j);
    }
    if exists|k: nat, r: int| pile_pair_succeeds(s, k, r) {
        let (k, r) = choose|k: nat, r: int| pile_pair_succeeds(s, k, r);
        lemma_pile_pair_is_tried(s, k, r);
    }
}

} // verus!
