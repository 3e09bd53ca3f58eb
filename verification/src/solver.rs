//! The backtracking search.
use vstd::prelude::*;
use crate::moves::Move;
use crate::pyramid::Pyramid;
use crate::replay::{
    is_cursor_move,
    lemma_opening_after,
    lemma_opening_ends,
    lemma_replay_push,
    lemma_search_wins,
    opening,
    replay,
    settle,
    wins,
};
use crate::search::{pass_log, prefixed, scan, scan_rows, search, search_pairs, search_rows};
use crate::tableau::{Tableau, TARGET, card_count, lemma_put_back, lemma_take_count, reachable};

verus! {

/// Whether two card values add up to the target.
fn is_match(a: u8, b: u8) -> (m: bool)
    ensures
        m == (a + b == TARGET),
{
    a <= TARGET && b == TARGET - a
}

/// What the loops of the search know of the tableau `s` it was called
/// with, of which `n` is the number of rows.
spec fn searching(s: Tableau, n: usize) -> bool {
    &&& s.wf()
    &&& !s.won()
    &&& n == s.rows.len()
    &&& card_count(s.rows) > 0
    &&& search(s) matches Some(t) ==> wins(s, t) && t.len() > 0
}

/// Searches depth first for moves that empty the top row of `p`.
///
/// The result says whether there is a trace to find. If there is, its
/// moves are appended to `moves` in the order in which they are made; they
/// are all allowed where they are made and lead to an empty top row; and
/// `p` is left as the first removal of the trace leaves it. If there is
/// none, `moves` is what it was, and `p` has all its cards and has counted
/// one cycle of the pile.
pub fn solve(p: &mut Pyramid, moves: &mut Vec<Move>) -> (ok: bool)
    requires
        old(p)@.wf(),
    ensures
        ok == search(old(p)@).is_some(),
        ok ==> final(moves)@ == old(moves)@ + search(old(p)@).unwrap(),
        ok ==> wins(old(p)@, search(old(p)@).unwrap()),
        ok && !old(p)@.won() ==> final(moves)@.len() > old(moves)@.len(),
        ok ==> replay(old(p)@, opening(search(old(p)@).unwrap())) == Some(final(p)@),
        !ok ==> final(moves)@ == old(moves)@,
        !ok ==> final(p)@ == old(p)@.given_up(),
    decreases card_count(old(p)@.rows),
{
    let ghost s = p@;
    let ghost log0 = moves@;
    let n = p.row_count();
    proof {
        lemma_search_wins(s);
    }
    if p.is_won() {
        assert(log0 + Seq::<Move>::empty() =~= log0);
        return true;
    }
    proof {
        lemma_take_count(s.rows, 0);
    }
    let mut i: usize = 0;
    while i < n
        invariant
            s == old(p)@,
            log0 == old(moves)@,
            searching(s, n),
            p@ == s,
            moves@ == log0,
            i <= n,
            search_rows(s, 0) == search_rows(s, i as int),
        decreases n - i,
    {
        if p.last_can_move(i) {
            let li = p.take_tail(i);
            proof {
                lemma_take_count(s.rows, i as int);
            }
            if li == TARGET {
                let m = Move::RowOne(i);
                moves.push(m);
                let mut q = p.clone();
                if solve(&mut q, moves) {
                    proof {
                        let t = search(s.take(i as int)).unwrap();
                        assert(log0.push(m) + t =~= log0 + (seq![m] + t));
                        lemma_opening_ends(m, t);
                        lemma_replay_push(s, Seq::empty(), m);
                        assert(Seq::<Move>::empty().push(m) =~= seq![m]);
                    }
                    return true;
                }
                moves.pop();
                assert(moves@ =~= log0);
            } else {
                let mut j: usize = i + 1;
                while j < n
                    invariant
                        s == old(p)@,
                        log0 == old(moves)@,
                        searching(s, n),
                        p@ == s.take(i as int),
                        moves@ == log0,
                        i < j <= n,
                        reachable(s.rows, i as int),
                        li == s.rows[i as int].last(),
                        li != TARGET,
                        card_count(s.take(i as int).rows) + 1 == card_count(s.rows),
                        search_rows(s, 0) == search_rows(s, i as int),
                        search_pairs(s, i as int, i + 1) == search_pairs(s, i as int, j as int),
                    decreases n - j,
                {
                    if p.last_can_move(j) {
                        let lj = p.take_tail(j);
                        proof {
                            lemma_take_count(s.take(i as int).rows, j as int);
                        }
                        if is_match(li, lj) {
                            let m = Move::RowsMatch { index_a: i, a: li, index_b: j, b: lj };
                            moves.push(m);
                            let mut q = p.clone();
                            if solve(&mut q, moves) {
                                proof {
                                    let t = search(s.take(i as int).take(j as int)).unwrap();
                                    assert(log0.push(m) + t =~= log0 + (seq![m] + t));
                                    lemma_opening_ends(m, t);
                                    lemma_replay_push(s, Seq::empty(), m);
                                    assert(Seq::<Move>::empty().push(m) =~= seq![m]);
                                }
                                return true;
                            }
                            moves.pop();
                            assert(moves@ =~= log0);
                        }
                        p.put_tail(j, lj);
                        proof {
                            lemma_put_back(s.take(i as int).rows, j as int);
                        }
                    }
                    j = j + 1;
                }
            }
            p.put_tail(i, li);
            proof {
                lemma_put_back(s.rows, i as int);
            }
        }
        i = i + 1;
    }
    let move_backup = moves.len();
    let old_index = p.cursor();
    let len = p.pile_len();
    let ghost mut k: int = 0;
    let ghost mut logged: Seq<Move> = Seq::empty();
    assert(prefixed(logged, scan(s, len as int)) == scan(s, len as int)) by {
        if let Some(t) = scan(s, len as int) {
            assert(logged + t =~= t);
        }
    }
    assert(log0 + logged =~= log0);
    loop
        invariant_except_break
            0 <= k < len,
            p@.cursor == (if old_index + k < len {
                old_index + k
            } else {
                old_index + k - len
            }),
            p@.cycles == (if old_index + k < len {
                s.cycles
            } else {
                s.cycles + 1
            }),
            s.limit != 0 ==> p@.cycles < s.limit,
            scan(s, len as int) == prefixed(logged, scan(p@, len - k)),
            replay(s, logged) matches Some(z) && settle(z) == settle(p@) && z.rows == s.rows,
        invariant
            s == old(p)@,
            log0 == old(moves)@,
            searching(s, n),
            len == s.pile.len(),
            old_index == s.cursor,
            move_backup == log0.len(),
            search(s) == scan(s, len as int),
            p@.rows == s.rows,
            p@.pile == s.pile,
            p@.limit == s.limit,
            moves@ == log0 + logged,
            forall|x: int| 0 <= x < logged.len() ==> is_cursor_move(#[trigger] logged[x]),
        ensures
            scan(s, len as int).is_none(),
            p@.cursor == s.given_up().cursor,
            p@.cycles == s.cycles + 1,
        decreases len - k,
    {
        let ghost here = p@;
        let ghost logged_here = logged;
        let ghost z = replay(s, logged).unwrap();
        let card = p.top();
        if card.1 {
            let lg = card.0;
            assert(settle(here) == here);
            let mut r: usize = 0;
            while r + 1 < n
                invariant
                    s == old(p)@,
                    log0 == old(moves)@,
                    searching(s, n),
                    search(s) == scan(s, len as int),
                    p@ == here,
                    moves@ == log0 + logged,
                    here.rows == s.rows,
                    here.limit == s.limit,
                    0 <= here.cycles <= s.cycles + 1,
                    s.limit != 0 ==> here.cycles < s.limit,
                    0 <= here.cursor < here.pile.len(),
                    here.pile[here.cursor] == (lg, true),
                    r + 1 <= n,
                    0 <= k < len,
                    scan_rows(here, 0) == scan_rows(here, r as int),
                    scan(s, len as int) == prefixed(logged, scan(here, len - k)),
                    replay(s, logged) == Some(z),
                    settle(z) == here,
                    z.rows == s.rows,
                    forall|x: int| 0 <= x < logged.len() ==> is_cursor_move(#[trigger] logged[x]),
                decreases n - r,
            {
                if p.last_can_move(r) {
                    let lr = p.take_tail(r);
                    proof {
                        lemma_take_count(s.rows, r as int);
                    }
                    if is_match(lr, lg) {
                        p.set_active(false);
                        let m = Move::RowsGroundMatch { ground_b: lg, index_a: r, a: lr };
                        moves.push(m);
                        let mut q = p.clone();
                        assert(q@ == here.take(r as int).spend());
                        if solve(&mut q, moves) {
                            proof {
                                let t = search(here.take(r as int).spend()).unwrap();
                                assert((log0 + logged).push(m) + t =~= log0 + (logged + (seq![m]
                                    + t)));
                                lemma_opening_ends(m, t);
                                lemma_opening_after(logged, seq![m] + t);
                                lemma_replay_push(s, logged, m);
                                assert(logged.push(m) =~= logged + seq![m]);
                            }
                            return true;
                        }
                        moves.pop();
                        assert(moves@ =~= log0 + logged);
                        p.set_active(true);
                        assert(p@.pile =~= here.pile);
                    }
                    p.put_tail(r, lr);
                    proof {
                        lemma_put_back(here.rows, r as int);
                    }
                }
                r = r + 1;
            }
            moves.push(Move::GroundPass(lg));
            proof {
                lemma_replay_push(s, logged, Move::GroundPass(lg));
                logged = logged.push(Move::GroundPass(lg));
            }
        }
        let ghost passed = Tableau { cursor: here.cursor + 1, ..here };
        assert(replay(s, logged) matches Some(y) && settle(y) == settle(passed) && y.rows == s.rows);
        let wrapped = p.advance();
        if wrapped {
            moves.push(Move::GroundReset);
            proof {
                assert(settle(passed) == passed);
                lemma_replay_push(s, logged, Move::GroundReset);
                logged = logged.push(Move::GroundReset);
            }
        }
        assert(logged =~= logged_here + pass_log(here));
        assert(moves@ =~= log0 + logged);
        if wrapped && p.exhausted() {
            break;
        }
        proof {
            k = k + 1;
            if let Some(t) = scan(here.advance(), len - k) {
                assert(logged_here + (pass_log(here) + t) =~= logged + t);
            }
        }
        if p.cursor() == old_index {
            break;
        }
    }
    moves.truncate(move_backup);
    assert(moves@ =~= log0);
    false
}

/// A search that fails on a tableau fails on every duplicate of it, and
/// leaves each of them in the same state, with all its cards.
pub proof fn lemma_duplicates_fail_alike(a: Pyramid, b: Pyramid)
    requires
        a@ == b@,
        search(a@).is_none(),
    ensures
        search(b@).is_none(),
        a@.given_up() == b@.given_up(),
        a@.given_up().rows == a@.rows,
        a@.given_up().pile == a@.pile,
{
}

} // verus!
