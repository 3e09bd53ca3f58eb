use pyramid_solver::{solve, Move, Pyramid};

/// Replays a trace on a plain copy of the layout and says whether every move
/// is legal where it is made and the top row ends up empty.
fn trace_wins(rows: &[&[u8]], pile: &[u8], limit: u8, trace: &[Move]) -> bool {
    let mut rows: Vec<Vec<u8>> = rows.iter().map(|r| r.to_vec()).collect();
    let mut pile: Vec<(u8, bool)> = pile.iter().map(|v| (*v, true)).collect();
    let mut cursor = 0usize;
    let mut cycles = 0u32;
    let reachable = |rows: &Vec<Vec<u8>>, i: usize| {
        i < rows.len()
            && !rows[i].is_empty()
            && (i + 1 == rows.len() || rows[i].len() > rows[i + 1].len())
    };
    for m in trace {
        match m {
            Move::RowOne(i) => {
                if !reachable(&rows, *i) || rows[*i].last() != Some(&13) {
                    return false;
                }
                rows[*i].pop();
            }
            Move::RowsMatch { index_a, a, index_b, b } => {
                if index_a >= index_b || !reachable(&rows, *index_a) || !reachable(&rows, *index_b) {
                    return false;
                }
                if rows[*index_a].last() != Some(a) || rows[*index_b].last() != Some(b) {
                    return false;
                }
                if u32::from(*a) + u32::from(*b) != 13 {
                    return false;
                }
                rows[*index_a].pop();
                rows[*index_b].pop();
            }
            Move::GroundPass(_) | Move::GroundReset | Move::RowsGroundMatch { .. } => {
                while cursor < pile.len() && !pile[cursor].1 {
                    cursor += 1;
                }
                match m {
                    Move::GroundPass(v) => {
                        if cursor >= pile.len() || pile[cursor].0 != *v {
                            return false;
                        }
                        cursor += 1;
                    }
                    Move::GroundReset => {
                        if cursor != pile.len() {
                            return false;
                        }
                        cursor = 0;
                        cycles += 1;
                        if limit != 0 && cycles >= u32::from(limit) {
                            return false;
                        }
                    }
                    Move::RowsGroundMatch { ground_b, index_a, a } => {
                        if cursor >= pile.len() || pile[cursor].0 != *ground_b {
                            return false;
                        }
                        if !reachable(&rows, *index_a) || rows[*index_a].last() != Some(a) {
                            return false;
                        }
                        if u32::from(*a) + u32::from(*ground_b) != 13 {
                            return false;
                        }
                        rows[*index_a].pop();
                        pile[cursor].1 = false;
                    }
                    _ => unreachable!(),
                }
            }
            Move::GroundMatch { .. } | Move::GroundOne => return false,
        }
    }
    rows[0].is_empty()
}

fn build(rows: &[&[u8]], pile: &[u8], limit: u8) -> Pyramid {
    let mut p = Pyramid::new(limit);
    for r in rows {
        p = p.add_one_row(r);
    }
    p.add_grounds(pile)
}

fn solve_and_check(rows: &[&[u8]], pile: &[u8], limit: u8) {
    let mut p = build(rows, pile, limit);
    let mut moves = vec![];
    println!("==========================================================");
    if solve(&mut p, &mut moves) {
        moves.iter().for_each(|x| println!("{:?}", x));
        assert!(!moves.is_empty());
        assert!(trace_wins(rows, pile, limit, &moves));
    } else {
        println!("No solution!");
        assert!(moves.is_empty());
    }
}

#[test]
fn test_grandmaster_2() {
    let mut p = Pyramid::new(3)
        .add_one_row(&[1, 9, 7, 8, 6, 9, 2])
        .add_one_row(&[7, 8, 5, 13, 5, 10])
        .add_one_row(&[12, 13, 3, 12, 12])
        .add_one_row(&[8, 7, 5, 7])
        .add_one_row(&[2, 3, 3])
        .add_one_row(&[6, 2])
        .add_one_row(&[4])
        .add_grounds(&[4, 10, 9, 4, 10, 11, 1, 6, 4, 6, 1, 13, 10, 11, 3, 1, 8, 9, 13, 5, 11, 12, 2, 11]);

    let mut moves = vec![];
    println!("==========================================================");
    if solve(&mut p, &mut moves) {
        moves.iter().for_each(|x| println!("{:?}", x));
        let rows: [&[u8]; 7] = [&[1, 9, 7, 8, 6, 9, 2], &[7, 8, 5, 13, 5, 10], &[12, 13, 3, 12, 12], &[8, 7, 5, 7], &[2, 3, 3], &[6, 2], &[4]];
        assert!(trace_wins(&rows, &[4, 10, 9, 4, 10, 11, 1, 6, 4, 6, 1, 13, 10, 11, 3, 1, 8, 9, 13, 5, 11, 12, 2, 11], 3, &moves));
    } else {
        println!("No solution!");
        assert!(moves.is_empty());
    }
}

#[test]
fn test_grandmaster_3() {
    let mut p = Pyramid::new(3)
        .add_one_row(&[10, 10, 12, 10, 7, 3, 1])
        .add_one_row(&[1, 4, 13, 2, 12, 1])
        .add_one_row(&[3, 7, 12, 9, 6])
        .add_one_row(&[13, 10, 8, 2])
        .add_one_row(&[7, 11, 5])
        .add_one_row(&[3, 4])
        .add_one_row(&[2])
        .add_grounds(&[9, 2, 11, 1, 5, 4, 6, 8, 11, 8, 6, 12, 13, 7, 9, 9, 8, 13, 11, 6, 3, 5, 5, 4]);

    let mut moves = vec![];
    println!("==========================================================");
    if solve(&mut p, &mut moves) {
        moves.iter().for_each(|x| println!("{:?}", x));
        let rows: [&[u8]; 7] = [&[10, 10, 12, 10, 7, 3, 1], &[1, 4, 13, 2, 12, 1], &[3, 7, 12, 9, 6], &[13, 10, 8, 2], &[7, 11, 5], &[3, 4], &[2]];
        assert!(trace_wins(&rows, &[9, 2, 11, 1, 5, 4, 6, 8, 11, 8, 6, 12, 13, 7, 9, 9, 8, 13, 11, 6, 3, 5, 5, 4], 3, &moves));
    } else {
        println!("No solution!");
        assert!(moves.is_empty());
    }
}

#[test]
fn test_grandmaster_4() {
    let mut p = Pyramid::new(3)
        .add_one_row(&[4, 10, 5, 5, 3, 12, 9])
        .add_one_row(&[8, 13, 13, 12, 10, 4])
        .add_one_row(&[7, 7, 3, 9, 11])
        .add_one_row(&[4, 11, 1, 6])
        .add_one_row(&[9, 3, 1])
        .add_one_row(&[10, 6])
        .add_one_row(&[2])
        .add_grounds(&[10, 1, 12, 2, 5, 8, 6, 11, 8, 11, 3, 13, 8, 2, 1, 4, 12, 5, 9, 6, 7, 7, 2, 13]);

    let mut moves = vec![];
    println!("==========================================================");
    if solve(&mut p, &mut moves) {
        moves.iter().for_each(|x| println!("{:?}", x));
        let rows: [&[u8]; 7] = [&[4, 10, 5, 5, 3, 12, 9], &[8, 13, 13, 12, 10, 4], &[7, 7, 3, 9, 11], &[4, 11, 1, 6], &[9, 3, 1], &[10, 6], &[2]];
        assert!(trace_wins(&rows, &[10, 1, 12, 2, 5, 8, 6, 11, 8, 11, 3, 13, 8, 2, 1, 4, 12, 5, 9, 6, 7, 7, 2, 13], 3, &moves));
    } else {
        println!("No solution!");
        assert!(moves.is_empty());
    }
}

#[test]
fn small_triangles_win_by_replay_or_keep_the_log_empty() {
    solve_and_check(&[&[6], &[13, 7], &[5, 8, 13]], &[1, 12, 4], 0);
    solve_and_check(&[&[4], &[12, 7], &[6, 13, 13]], &[9, 1], 2);
    solve_and_check(&[&[2], &[3, 10], &[11, 13, 6]], &[7, 11, 2], 3);
}

#[test]
fn single_target_card_leaves_alone() {
    let mut p = build(&[&[13], &[]], &[5], 0);
    let mut moves = vec![];
    assert!(solve(&mut p, &mut moves));
    assert_eq!(moves, vec![Move::RowOne(0)]);
    // the card is gone from the caller's tableau too
    assert!(!p.last_can_move(0));
}

#[test]
fn two_exposed_tails_leave_as_a_pair() {
    let mut p = build(&[&[6], &[], &[7]], &[1], 0);
    let mut moves = vec![];
    assert!(solve(&mut p, &mut moves));
    assert_eq!(moves, vec![Move::RowsMatch { index_a: 0, a: 6, index_b: 2, b: 7 }]);
}

#[test]
fn solved_tableau_logs_nothing() {
    let mut p = build(&[&[], &[4]], &[9], 0);
    let mut moves = vec![Move::GroundOne];
    assert!(solve(&mut p, &mut moves));
    assert_eq!(moves, vec![Move::GroundOne]);
}

#[test]
fn unmatched_card_fails_and_restores_the_log() {
    let mut p = build(&[&[5], &[]], &[9, 7], 3);
    let mut moves = vec![Move::GroundOne, Move::GroundPass(2)];
    assert!(!solve(&mut p, &mut moves));
    assert_eq!(moves, vec![Move::GroundOne, Move::GroundPass(2)]);
}

#[test]
fn covered_top_row_cannot_be_paired() {
    // both rows have one card: the top one is covered
    let mut p = build(&[&[6], &[7]], &[7], 0);
    let mut moves = vec![];
    assert!(!solve(&mut p, &mut moves));
    assert!(moves.is_empty());
}

#[test]
fn last_row_is_not_paired_with_the_pile() {
    let mut p = build(&[&[13, 13], &[4]], &[9], 0);
    let mut moves = vec![];
    assert!(!solve(&mut p, &mut moves));
    assert!(moves.is_empty());
}

#[test]
fn pile_card_before_the_cursor_needs_a_second_cycle() {
    let rows: [&[u8]; 2] = [&[3, 4], &[]];
    let pile = [10, 9];

    let mut limited = build(&rows, &pile, 1);
    let mut moves = vec![];
    assert!(!solve(&mut limited, &mut moves));
    assert!(moves.is_empty());

    let expected = vec![
        Move::GroundPass(10),
        Move::RowsGroundMatch { ground_b: 9, index_a: 0, a: 4 },
        Move::GroundReset,
        Move::RowsGroundMatch { ground_b: 10, index_a: 0, a: 3 },
    ];
    let mut unlimited = build(&rows, &pile, 0);
    let mut moves = vec![];
    assert!(solve(&mut unlimited, &mut moves));
    assert_eq!(moves, expected);
    assert!(trace_wins(&rows, &pile, 0, &moves));

    let mut roomy = build(&rows, &pile, 2);
    let mut moves = vec![];
    assert!(solve(&mut roomy, &mut moves));
    assert_eq!(moves, expected);
    assert!(trace_wins(&rows, &pile, 2, &moves));
}

#[test]
fn failure_is_the_same_on_every_duplicate() {
    let p = build(&[&[5, 2], &[11]], &[9, 7, 1], 2);
    let mut first = p.clone();
    let mut second = p.clone();
    let mut log_a = vec![];
    let mut log_b = vec![];
    assert!(!solve(&mut first, &mut log_a));
    assert!(!solve(&mut second, &mut log_b));
    assert_eq!(log_a, log_b);
    assert!(log_a.is_empty());
}

#[test]
fn failed_search_leaves_the_rows_as_they_were() {
    let mut p = build(&[&[5, 2], &[11], &[3]], &[9, 7, 1], 0);
    let before: Vec<bool> = (0..3).map(|i| p.last_can_move(i)).collect();
    let mut moves = vec![];
    assert!(!solve(&mut p, &mut moves));
    let after: Vec<bool> = (0..3).map(|i| p.last_can_move(i)).collect();
    assert_eq!(before, vec![true, false, true]);
    assert_eq!(after, before);
    // the cards are all still there: the same search fails again
    assert!(!solve(&mut p, &mut moves));
    assert!(moves.is_empty());
}

#[test]
fn duplicate_is_independent() {
    let p = build(&[&[13], &[]], &[5], 0);
    let mut q = p.clone();
    let mut moves = vec![];
    assert!(solve(&mut q, &mut moves));
    assert!(p.last_can_move(0));
    assert!(!q.last_can_move(0));
}

#[test]
fn last_can_move_follows_the_row_lengths() {
    let p = build(&[&[1, 2], &[3, 4], &[5], &[], &[6]], &[1], 0);
    assert!(!p.last_can_move(0)); // as long as the row below
    assert!(p.last_can_move(1)); // longer than the row below
    assert!(p.last_can_move(2)); // the row below is empty
    assert!(!p.last_can_move(3)); // empty
    assert!(p.last_can_move(4)); // the last row
}

#[test]
fn pair_is_preferred_to_the_pile() {
    let mut p = build(&[&[6], &[], &[7]], &[7], 0);
    let mut moves = vec![];
    assert!(solve(&mut p, &mut moves));
    assert_eq!(moves, vec![Move::RowsMatch { index_a: 0, a: 6, index_b: 2, b: 7 }]);
}

#[test]
fn large_values_never_match() {
    let mut p = build(&[&[200], &[], &[69]], &[69, 200], 0);
    let mut moves = vec![];
    assert!(!solve(&mut p, &mut moves));
    assert!(moves.is_empty());
}

#[test]
fn trace_checker_rejects_a_covered_tail() {
    let rows: [&[u8]; 2] = [&[13], &[13]];
    assert!(!trace_wins(&rows, &[1], 0, &[Move::RowOne(0)]));
    assert!(!trace_wins(&rows, &[1], 0, &[Move::RowOne(1)]));
    assert!(trace_wins(&rows, &[1], 0, &[Move::RowOne(1), Move::RowOne(0)]));
}

#[test]
fn cloned_move_is_equal() {
    let m = Move::RowsGroundMatch { ground_b: 9, index_a: 2, a: 4 };
    assert_eq!(m.clone(), m);
    assert_ne!(Move::GroundPass(3).clone(), Move::GroundPass(4));
    assert_eq!(Move::GroundMatch { a: 1, b: 12 }.clone(), Move::GroundMatch { a: 1, b: 12 });
    assert_eq!(Move::GroundOne.clone(), Move::GroundOne);
}

#[test]
fn solution_runs_through_rows_and_pile() {
    let rows: [&[u8]; 3] = [&[4], &[12, 7], &[6, 13, 13]];
    let pile = [9, 1];
    let mut p = build(&rows, &pile, 0);
    let mut moves = vec![];
    assert!(solve(&mut p, &mut moves));
    assert_eq!(
        moves,
        vec![
            Move::RowOne(2),
            Move::RowOne(2),
            Move::RowsMatch { index_a: 1, a: 7, index_b: 2, b: 6 },
            Move::GroundPass(9),
            Move::RowsGroundMatch { ground_b: 1, index_a: 1, a: 12 },
            Move::GroundReset,
            Move::RowsGroundMatch { ground_b: 9, index_a: 0, a: 4 },
        ]
    );
    assert!(trace_wins(&rows, &pile, 0, &moves));

    let mut limited = build(&rows, &pile, 1);
    let mut moves = vec![Move::GroundReset];
    assert!(!solve(&mut limited, &mut moves));
    assert_eq!(moves, vec![Move::GroundReset]);
}

#[test]
fn pile_grows_in_the_order_given() {
    let rows: [&[u8]; 2] = [&[3, 4], &[]];
    let mut p = Pyramid::new(0)
        .add_one_row(rows[0])
        .add_one_row(rows[1])
        .add_grounds(&[9])
        .add_grounds(&[])
        .add_grounds(&[10]);
    let mut moves = vec![];
    assert!(solve(&mut p, &mut moves));
    assert_eq!(
        moves,
        vec![
            Move::RowsGroundMatch { ground_b: 9, index_a: 0, a: 4 },
            Move::RowsGroundMatch { ground_b: 10, index_a: 0, a: 3 },
        ]
    );
    assert!(trace_wins(&rows, &[9, 10], 0, &moves));
}
