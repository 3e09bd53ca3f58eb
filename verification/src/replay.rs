//! The rules of the game, as the effect of one move on a tableau, and the
//! proof that every trace the search finds follows them to a win.
use vstd::prelude::*;
use crate::moves::Move;
use crate::search::{pass_log, scan, scan_rows, search, search_pairs, search_rows};
use crate::tableau::{Tableau, TARGET, card_count, lemma_take_count, reachable};

verus! {

/// The tableau with the cursor moved past the removed pile cards in front
/// of it, as far as the end of the pile and no further.
pub open spec fn settle(s: Tableau) -> Tableau
    decreases s.pile.len() - s.cursor,
{
    if 0 <= s.cursor < s.pile.len() && !s.pile[s.cursor].1 {
        settle(Tableau { cursor: s.cursor + 1, ..s })
    } else {
        s
    }
}

/// Whether the move concerns the pile.
pub open spec fn is_pile_move(m: Move) -> bool {
    m is GroundPass || m is GroundReset || m is RowsGroundMatch
}

/// The tableau after move `m` is made in `s`, or `None` where the rules do
/// not allow the move there.
///
/// A row's tail leaves only while it is reachable, alone if it has the
/// target value, with a partner if the two add up to it. A pile move first
/// lets the cursor settle on the next card that is still there. A pass
/// leaves the cursor behind that card; a reset takes it from the end of the
/// pile to the start, and is allowed only while the cycle limit is not
/// reached by it.
pub open spec fn step(s: Tableau, m: Move) -> Option<Tableau> {
    let c = settle(s);
    match m {
        Move::RowOne(i) => if reachable(s.rows, i as int) && s.rows[i as int].last() == TARGET {
            Some(s.take(i as int))
        } else {
            None
        },
        Move::RowsMatch { index_a, a, index_b, b } => if index_a < index_b && reachable(
            s.rows,
            index_a as int,
        ) && reachable(s.rows, index_b as int) && s.rows[index_a as int].last() == a
            && s.rows[index_b as int].last() == b && a + b == TARGET {
            Some(s.take(index_a as int).take(index_b as int))
        } else {
            None
        },
        Move::RowsGroundMatch { ground_b, index_a, a } => if 0 <= c.cursor < c.pile.len()
            && c.pile[c.cursor] == (ground_b, true) && reachable(s.rows, index_a as int)
            && s.rows[index_a as int].last() == a && a + ground_b == TARGET {
            Some(c.take(index_a as int).spend())
        } else {
            None
        },
        Move::GroundPass(v) => if 0 <= c.cursor < c.pile.len() && c.pile[c.cursor] == (v, true) {
            Some(Tableau { cursor: c.cursor + 1, ..c })
        } else {
            None
        },
        Move::GroundReset => if c.cursor == c.pile.len() && (c.limit == 0 || c.cycles + 1
            < c.limit) {
            Some(Tableau { cursor: 0, cycles: c.cycles + 1, ..c })
        } else {
            None
        },
        Move::GroundMatch { .. } => None,
        Move::GroundOne => None,
    }
}

/// The tableau after the moves of `t` are made in order from `s`, or `None`
/// where one of them is not allowed.
pub open spec fn replay(s: Tableau, t: Seq<Move>) -> Option<Tableau>
    decreases t.len(),
{
    if t.len() == 0 {
        Some(s)
    } else {
        match step(s, t[0]) {
            Some(next) => replay(next, t.skip(1)),
            None => None,
        }
    }
}

/// Every move of `t` is allowed where it is made, and after the last one
/// the top row is empty.
pub open spec fn wins(s: Tableau, t: Seq<Move>) -> bool {
    match replay(s, t) {
        Some(end) => end.won(),
        None => false,
    }
}

/// Whether the move only moves the cursor.
pub open spec fn is_cursor_move(m: Move) -> bool {
    m is GroundPass || m is GroundReset
}

/// The moves of `t` up to the first that removes cards, that one included.
pub open spec fn opening(t: Seq<Move>) -> Seq<Move>
    decreases t.len(),
{
    if t.len() == 0 {
        t
    } else if is_cursor_move(t[0]) {
        seq![t[0]] + opening(t.skip(1))
    } else {
        seq![t[0]]
    }
}

/// Replaying a trace is making its first move and replaying the rest.
pub proof fn lemma_replay_first(s: Tableau, m: Move, t: Seq<Move>)
    ensures
        replay(s, seq![m] + t) == (match step(s, m) {
            Some(next) => replay(next, t),
            None => None,
        }),
{
    let full = seq![m] + t;
    assert(full[0] == m);
    assert(full.skip(1) =~= t);
}

/// Replaying two traces on end is replaying the second where the first
/// leads.
pub proof fn lemma_replay_then(s: Tableau, a: Seq<Move>, b: Seq<Move>)
    ensures
        replay(s, a + b) == (match replay(s, a) {
            Some(mid) => replay(mid, b),
            None => None,
        }),
    decreases a.len(),
{
    if a.len() == 0 {
        assert(a + b =~= b);
    } else {
        assert((a + b)[0] == a[0]);
        assert((a + b).skip(1) =~= a.skip(1) + b);
        if let Some(next) = step(s, a[0]) {
            lemma_replay_then(next, a.skip(1), b);
        }
    }
}

/// Replaying one move more is making that move where the trace leads.
pub proof fn lemma_replay_push(s: Tableau, a: Seq<Move>, m: Move)
    ensures
        replay(s, a.push(m)) == (match replay(s, a) {
            Some(mid) => step(mid, m),
            None => None,
        }),
{
    lemma_replay_then(s, a, seq![m]);
    assert(a.push(m) =~= a + seq![m]);
    if let Some(mid) = replay(s, a) {
        lemma_replay_first(mid, m, Seq::empty());
        assert(seq![m] + Seq::<Move>::empty() =~= seq![m]);
    }
}

/// After moves of the cursor alone, the opening goes on into what follows.
pub proof fn lemma_opening_after(a: Seq<Move>, b: Seq<Move>)
    requires
        forall|x: int| 0 <= x < a.len() ==> is_cursor_move(#[trigger] a[x]),
    ensures
        opening(a + b) == a + opening(b),
    decreases a.len(),
{
    if a.len() == 0 {
        assert(a + b =~= b);
        assert(a + opening(b) =~= opening(b));
    } else {
        assert((a + b)[0] == a[0]);
        assert((a + b).skip(1) =~= a.skip(1) + b);
        lemma_opening_after(a.skip(1), b);
        assert(seq![a[0]] + (a.skip(1) + opening(b)) =~= a + opening(b));
    }
}

/// The opening ends with the first move that removes cards.
pub proof fn lemma_opening_ends(m: Move, t: Seq<Move>)
    requires
        !is_cursor_move(m),
    ensures
        opening(seq![m] + t) == seq![m],
{
    assert((seq![m] + t)[0] == m);
}

/// A move that takes a row's tail is allowed only while that tail is
/// reachable.
pub proof fn lemma_taken_tail_is_reachable(s: Tableau, m: Move)
    requires
        step(s, m).is_some(),
    ensures
        m matches Move::RowOne(i) ==> reachable(s.rows, i as int),
        m matches Move::RowsMatch { index_a, index_b, .. } ==> reachable(s.rows, index_a as int)
            && reachable(s.rows, index_b as int),
        m matches Move::RowsGroundMatch { index_a, .. } ==> reachable(s.rows, index_a as int),
{
}

/// In a trace that replays, every move is allowed in the tableau that the
/// moves before it lead to. With the lemma above: whenever a row's tail is
/// taken, it is reachable at that moment.
pub proof fn lemma_every_move_allowed(s: Tableau, t: Seq<Move>, k: int)
    requires
        replay(s, t).is_some(),
        0 <= k < t.len(),
    ensures
        replay(s, t.take(k)) matches Some(mid) && step(mid, t[k]).is_some(),
    decreases k,
{
    if k == 0 {
        assert(t.take(0).len() == 0);
    } else {
        let next = step(s, t[0]).unwrap();
        lemma_every_move_allowed(next, t.skip(1), k - 1);
        assert(t.take(k).skip(1) =~= t.skip(1).take(k - 1));
        assert(t.take(k)[0] == t[0]);
        assert(t.skip(1)[k - 1] == t[k]);
    }
}

/// Settling moves the cursor and nothing else, and never past the end of
/// the pile.
pub proof fn lemma_settle_keeps(s: Tableau)
    requires
        0 <= s.cursor <= s.pile.len(),
    ensures
        settle(s) == (Tableau { cursor: settle(s).cursor, ..s }),
        s.cursor <= settle(s).cursor <= s.pile.len(),
    decreases s.pile.len() - s.cursor,
{
    if s.cursor < s.pile.len() && !s.pile[s.cursor].1 {
        lemma_settle_keeps(Tableau { cursor: s.cursor + 1, ..s });
    }
}

/// A move keeps the shape of the tableau and the cycle limit. The cycle
/// counter never goes down, and where a limit is set it stays below it.
pub proof fn lemma_step_keeps(s: Tableau, m: Move)
    requires
        0 <= s.cursor <= s.pile.len(),
        step(s, m).is_some(),
    ensures
        ({
            let next = step(s, m).unwrap();
            &&& next.rows.len() == s.rows.len()
            &&& next.pile.len() == s.pile.len()
            &&& 0 <= next.cursor <= next.pile.len()
            &&& next.limit == s.limit
            &&& s.cycles <= next.cycles <= s.cycles + 1
            &&& next.cycles != s.cycles ==> m is GroundReset
            &&& s.limit != 0 && s.cycles < s.limit ==> next.cycles < s.limit
        }),
{
    lemma_settle_keeps(s);
}

/// What holds of one move holds of a trace.
pub proof fn lemma_replay_keeps(s: Tableau, t: Seq<Move>)
    requires
        0 <= s.cursor <= s.pile.len(),
        replay(s, t).is_some(),
    ensures
        ({
            let end = replay(s, t).unwrap();
            &&& end.rows.len() == s.rows.len()
            &&& end.pile.len() == s.pile.len()
            &&& 0 <= end.cursor <= end.pile.len()
            &&& end.limit == s.limit
            &&& s.cycles <= end.cycles
            &&& s.limit != 0 && s.cycles < s.limit ==> end.cycles < s.limit
        }),
    decreases t.len(),
{
    if t.len() > 0 {
        let next = step(s, t[0]).unwrap();
        lemma_step_keeps(s, t[0]);
        lemma_replay_keeps(next, t.skip(1));
    }
}

/// With a cycle limit of one the cursor never wraps: a trace that replays
/// holds no reset.
pub proof fn lemma_single_cycle_never_wraps(s: Tableau, t: Seq<Move>, k: int)
    requires
        0 <= s.cursor <= s.pile.len(),
        0 <= s.cycles,
        s.limit == 1,
        replay(s, t).is_some(),
        0 <= k < t.len(),
    ensures
        !(t[k] is GroundReset),
{
    lemma_every_move_allowed(s, t, k);
    let mid = replay(s, t.take(k)).unwrap();
    lemma_replay_keeps(s, t.take(k));
    lemma_settle_keeps(mid);
}

/// The trace that the search finds is a winning one: replayed from the
/// tableau it was found for, every move is allowed where it is made and the
/// top row ends up empty. Unless the top row was empty to begin with, the
/// trace holds at least one move.
pub proof fn lemma_search_wins(s: Tableau)
    requires
        s.rows.len() <= usize::MAX,
    ensures
        search(s) matches Some(t) ==> wins(s, t) && (s.won() || t.len() > 0),
    decreases card_count(s.rows), 5int, 0int,
{
    if !s.won() {
        lemma_rows_win(s, 0);
        lemma_scan_wins(s, s.pile.len() as int);
    }
}

proof fn lemma_rows_win(s: Tableau, i: int)
    requires
        s.rows.len() <= usize::MAX,
    ensures
        search_rows(s, i) matches Some(t) ==> wins(s, t) && t.len() > 0,
    decreases card_count(s.rows), 4int, s.rows.len() - i,
{
    if 0 <= i < s.rows.len() {
        lemma_rows_win(s, i + 1);
        if reachable(s.rows, i) {
            if s.rows[i].last() == TARGET {
                lemma_take_count(s.rows, i);
                lemma_search_wins(s.take(i));
                if let Some(t) = search(s.take(i)) {
                    lemma_replay_first(s, Move::RowOne(i as usize), t);
                }
            } else {
                lemma_pairs_win(s, i, i + 1);
            }
        }
    }
}

proof fn lemma_pairs_win(s: Tableau, i: int, j: int)
    requires
        s.rows.len() <= usize::MAX,
    ensures
        search_pairs(s, i, j) matches Some(t) ==> wins(s, t) && t.len() > 0,
    decreases card_count(s.rows), 3int, s.rows.len() - j,
{
    if reachable(s.rows, i) && i < j < s.rows.len() {
        lemma_pairs_win(s, i, j + 1);
        if reachable(s.rows, j) && s.rows[i].last() + s.rows[j].last() == TARGET {
            lemma_take_count(s.rows, i);
            lemma_take_count(s.take(i).rows, j);
            lemma_search_wins(s.take(i).take(j));
            if let Some(t) = search(s.take(i).take(j)) {
                let m = Move::RowsMatch {
                    index_a: i as usize,
                    a: s.rows[i].last(),
                    index_b: j as usize,
                    b: s.rows[j].last(),
                };
                lemma_replay_first(s, m, t);
            }
        }
    }
}

proof fn lemma_scan_wins(s: Tableau, n: int)
    requires
        s.rows.len() <= usize::MAX,
    ensures
        scan(s, n) matches Some(t) ==> wins(s, t) && t.len() > 0 && is_pile_move(t[0]),
    decreases card_count(s.rows), 2int, n,
{
    if n > 0 && 0 <= s.cursor < s.pile.len() {
        let active = s.pile[s.cursor].1;
        if active {
            lemma_scan_rows_win(s, 0);
        }
        let found = if active {
            scan_rows(s, 0)
        } else {
            None
        };
        let wrap = s.cursor + 1 == s.pile.len();
        if found.is_none() && !(wrap && s.advance().exhausted()) {
            let next = s.advance();
            lemma_scan_wins(next, n - 1);
            if let Some(t) = scan(next, n - 1) {
                let mid = Tableau { cursor: s.cursor + 1, ..s };
                assert(settle(mid) == mid || !wrap);
                if active {
                    let pass = Move::GroundPass(s.pile[s.cursor].0);
                    assert(settle(s) == s);
                    if wrap {
                        assert(pass_log(s) + t =~= seq![pass] + (seq![Move::GroundReset] + t));
                        lemma_replay_first(mid, Move::GroundReset, t);
                        lemma_replay_first(s, pass, seq![Move::GroundReset] + t);
                    } else {
                        assert(pass_log(s) + t =~= seq![pass] + t);
                        lemma_replay_first(s, pass, t);
                    }
                } else {
                    assert(settle(s) == settle(mid));
                    if wrap {
                        assert(pass_log(s) + t =~= seq![Move::GroundReset] + t);
                        lemma_replay_first(s, Move::GroundReset, t);
                    } else {
                        assert(pass_log(s) + t =~= t);
                        assert(step(s, t[0]) == step(next, t[0]));
                    }
                }
            }
        }
    }
}

proof fn lemma_scan_rows_win(s: Tableau, r: int)
    requires
        s.rows.len() <= usize::MAX,
        0 <= s.cursor < s.pile.len(),
        s.pile[s.cursor].1,
    ensures
        scan_rows(s, r) matches Some(t) ==> wins(s, t) && t.len() > 0 && is_pile_move(t[0]),
    decreases card_count(s.rows), 1int, s.rows.len() - r,
{
    if 0 <= r && r + 1 < s.rows.len() {
        lemma_scan_rows_win(s, r + 1);
        if reachable(s.rows, r) && s.rows[r].last() + s.pile[s.cursor].0 == TARGET {
            lemma_take_count(s.rows, r);
            lemma_search_wins(s.take(r).spend());
            if let Some(t) = search(s.take(r).spend()) {
                let m = Move::RowsGroundMatch {
                    ground_b: s.pile[s.cursor].0,
                    index_a: r as usize,
                    a: s.rows[r].last(),
                };
                assert(settle(s) == s);
                lemma_replay_first(s, m, t);
                assert((seq![m] + t)[0] == m);
            }
        }
    }
}

} // verus!
