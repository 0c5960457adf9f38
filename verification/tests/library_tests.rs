use chain_chess_lib::board::is_in_first_move_restricted;
use chain_chess_lib::order::order_moves;
use chain_chess_lib::strategy::{count_any_opponent_around, count_opponent_level_around, has_opponent_level_near};
use chain_chess_lib::{eval_board, eval_board_handcraft, eval_board_improved, hash_board, ml_blend};
use chain_chess_lib::{
    build_board, cell_threshold, find_best_move, find_best_move_pvs, find_best_move_strategy, first_move_center, get_moves,
    history_date, ids_absent, max_players_for, parse_algs, parse_borders, parse_caps, process_click,
    process_click_with_snapshots, process_move, spread_starts, start_board, update_available, update_decision, BorderMode,
    CapMode, Cell, GameBoard, MlScore, SimAction, Simulation,
};

struct NoModel;

impl MlScore for NoModel {
    fn ml_score(&self, _board: &Vec<Vec<Cell>>, _player: usize, _bm: BorderMode, _cm: CapMode) -> i32 {
        0
    }
}

fn empty(sz: usize) -> GameBoard {
    vec![vec![Cell { owner: None, count: 0, th: None }; sz]; sz]
}

fn put(b: &mut GameBoard, x: usize, y: usize, owner: usize, count: u8) {
    b[x][y] = Cell { owner: Some(owner), count, th: None };
}

#[test]
fn restricted_zone_has_twelve_squares() {
    let mut n = 0;
    for x in 0..11 {
        for y in 0..11 {
            if is_in_first_move_restricted(x, y, 5, 5) {
                n += 1;
            }
        }
    }
    assert_eq!(n, 12);
    assert!(!is_in_first_move_restricted(5, 5, 5, 5));
    assert!(is_in_first_move_restricted(6, 6, 5, 5));
    assert!(is_in_first_move_restricted(7, 5, 5, 5));
    assert!(!is_in_first_move_restricted(7, 6, 5, 5));
}

#[test]
fn first_move_avoids_zones() {
    let mut b = empty(5);
    put(&mut b, 2, 2, 1, 3);
    let mv = get_moves(&b, 5, 0, None, BorderMode::Default, CapMode::Cap4);
    assert!(!mv.contains(&(2, 3)));
    assert!(!mv.contains(&(3, 3)));
    assert!(!mv.contains(&(4, 2)));
    assert!(mv.contains(&(0, 0)));
    assert!(mv.contains(&(4, 3)));
    assert_eq!(mv.len(), 25 - 13);
}

#[test]
fn click_on_opponent_square_changes_nothing() {
    let mut b = empty(5);
    put(&mut b, 1, 1, 1, 2);
    put(&mut b, 3, 3, 0, 1);
    let before = b.clone();
    let (elim, chain) = process_click(&mut b, 5, 1, 1, 0, 2, BorderMode::Default, CapMode::Cap4, Some(3));
    assert_eq!(b, before);
    assert!(elim.is_empty());
    assert_eq!(chain, 0);
}

#[test]
fn first_move_only_places() {
    for cm in [CapMode::Cap3, CapMode::Cap4, CapMode::Cap5] {
        let mut b = empty(5);
        let (elim, chain, _kb, steps, exploded) =
            process_click_with_snapshots(&mut b, 5, 0, 0, 0, 2, BorderMode::Default, cm, Some(1));
        assert_eq!(chain, 0);
        assert!(elim.is_empty() && steps.is_empty() && exploded.is_empty());
        assert_eq!(b[0][0].owner, Some(0));
        assert_eq!(b[0][0].count as u32, cell_threshold(0, 0, 5, BorderMode::Default, cm) - 1);
    }
}

#[test]
fn last_snapshot_is_final_board() {
    let mut b = empty(5);
    put(&mut b, 0, 0, 0, 3);
    put(&mut b, 0, 1, 0, 3);
    put(&mut b, 4, 4, 1, 1);
    let (_elim, chain, _kb, steps, exploded) =
        process_click_with_snapshots(&mut b, 5, 0, 0, 0, 2, BorderMode::Default, CapMode::Cap4, Some(1));
    assert_eq!(chain as usize, steps.len());
    assert_eq!(steps.len(), exploded.len());
    assert_eq!(exploded[0], (0, 0));
    assert_eq!(steps.last().unwrap(), &b);
}

#[test]
fn chain_settles_below_thresholds() {
    let mut b = empty(5);
    for i in 0..5 {
        for j in 0..5 {
            if (i + j) % 2 == 0 {
                put(&mut b, i, j, 0, 3);
            } else {
                put(&mut b, i, j, 1, 1);
            }
        }
    }
    let (_elim, chain) = process_click(&mut b, 5, 2, 2, 0, 2, BorderMode::Default, CapMode::Cap4, Some(9));
    assert!(chain >= 1);
    for i in 0..5 {
        for j in 0..5 {
            assert!((b[i][j].count as u32) < cell_threshold(i, j, 5, BorderMode::Default, CapMode::Cap4));
        }
    }
}

#[test]
fn process_move_reports_game_over() {
    let mut b = empty(5);
    put(&mut b, 2, 2, 0, 3);
    put(&mut b, 2, 3, 1, 1);
    let r = process_move(b.clone(), 5, 2, 2, 0, 2, BorderMode::Default, None, Some(1));
    assert_eq!(r.eliminated, vec![1]);
    assert!(r.game_over);
    assert_eq!(r.winner, Some(0));
    assert_eq!(r.killed_by, vec![(1, 0)]);
    assert_eq!(r.steps.len(), r.chain_count as usize);
    let r3 = process_move(b.clone(), 5, 2, 2, 0, 3, BorderMode::Default, None, Some(1));
    assert!(!r3.game_over);
    assert_eq!(r3.winner, None);
    let quiet = process_move(b, 5, 4, 4, 1, 2, BorderMode::Default, Some(CapMode::Cap5), Some(1));
    assert!(quiet.eliminated.is_empty() && !quiet.game_over);
}

#[test]
fn simulation_passes_and_ends() {
    let mut b = empty(5);
    put(&mut b, 0, 0, 0, 1);
    put(&mut b, 4, 4, 1, 1);
    let mut s = Simulation::new(b, 5, 2, 1, vec![], BorderMode::Default, CapMode::Cap4, 7);
    assert_eq!(s.next(), SimAction::Ask(1));
    assert_eq!(s.apply(None), None);
    assert_eq!(s.cur, 0);
    assert_eq!(s.next(), SimAction::Ask(0));
    assert_eq!(s.apply(None), Some(Some(0)));
    assert!(s.history.is_empty());
}

#[test]
fn simulation_records_a_move() {
    let mut b = empty(5);
    put(&mut b, 0, 0, 0, 1);
    put(&mut b, 4, 4, 1, 1);
    let mut s = Simulation::new(b, 5, 2, 0, vec![], BorderMode::Default, CapMode::Cap4, 7);
    assert_eq!(s.next(), SimAction::Ask(0));
    assert_eq!(s.apply(Some((0, 0))), None);
    assert_eq!(s.history.len(), 1);
    let h = &s.history[0];
    assert_eq!(h.turn, 0);
    assert_eq!(h.mv, Some([0, 0, 0, 7 * 1000003]));
    assert_eq!(h.snapshot[0].pieces, 1);
    assert_eq!(h.snapshot[0].points, 2);
    assert_eq!(h.snapshot[1].pieces, 1);
    assert_eq!(s.game_count, 8);
    assert_eq!(s.cur, 1);
}

#[test]
fn simulation_skips_players_that_are_out() {
    let mut b = empty(5);
    put(&mut b, 0, 0, 0, 1);
    put(&mut b, 4, 4, 2, 1);
    let mut s = Simulation::new(b, 5, 3, 1, vec![], BorderMode::Default, CapMode::Cap4, 0);
    assert_eq!(s.next(), SimAction::Ask(2));
    assert_eq!(s.steps, 2);
    let mut lone = empty(5);
    put(&mut lone, 1, 1, 1, 2);
    let mut s2 = Simulation::new(lone, 5, 3, 0, vec![], BorderMode::Default, CapMode::Cap4, 0);
    assert_eq!(s2.next(), SimAction::Finish(Some(1)));
}

#[test]
fn update_check_compares_versions() {
    assert!(update_available("1.2.3", "1.10.0"));
    assert!(!update_available("1.10.0", "1.9.0"));
    assert!(update_available("2.0.0", "2.0.0"));
    assert!(!update_available("1.0.0", ""));
    assert!(update_available("1.0.0", "not-a-version"));
    assert!(!update_decision(Some(false), "9.9.9"));
    assert!(update_decision(None, "x"));
}

#[test]
fn lists_parse_trimmed_and_skip_unknown() {
    assert_eq!(parse_algs(" strategy, ,pvs ,\tmcts,"), vec!["strategy".to_string(), "pvs".to_string(), "mcts".to_string()]);
    assert!(parse_algs("").is_empty());
    assert_eq!(parse_caps("3, 5,x,random,4"), vec![CapMode::Cap3, CapMode::Cap5, CapMode::Random, CapMode::Cap4]);
    assert_eq!(parse_borders("wrap,mixed, degrade ,default,bounce"), vec![BorderMode::Wrap, BorderMode::Degrade, BorderMode::Default, BorderMode::Bounce]);
    assert!(parse_borders("random").is_empty());
}

#[test]
fn starts_move_on_when_crowded() {
    let pos = spread_starts(7, &vec![(3, 3), (3, 3), (40, 0)]);
    assert_eq!(pos[0], (3, 3));
    assert_eq!(pos[1], (6, 5));
    assert_eq!(pos[2], (6, 0));
}

#[test]
fn start_board_levels() {
    let b = start_board(5, &vec![(1, 1), (3, 3)], CapMode::Cap5);
    assert_eq!(b[1][1], Cell { owner: Some(0), count: 4, th: None });
    assert_eq!(b[3][3], Cell { owner: Some(1), count: 4, th: None });
    let r = start_board(5, &vec![(1, 1)], CapMode::Random);
    assert_eq!(r[1][1].count, 2);
    assert_eq!(build_board(3), empty(3));
}

#[test]
fn export_date_and_id_filters() {
    assert_eq!(history_date(0), (1970, 1, 1));
    assert_eq!(history_date(86400 * 400 + 5), (1971, 2, 11));
    assert_eq!(history_date(86400 * 359), (1970, 12, 30));
    assert_eq!(ids_absent(&vec![3, 5], &vec![1, 3, 5, 7]), vec![true, false, false, true]);
}

#[test]
fn players_counted_on_board() {
    let mut b = empty(5);
    assert_eq!(max_players_for(&b), 2);
    put(&mut b, 0, 0, 4, 1);
    put(&mut b, 1, 0, 7, 1);
    put(&mut b, 2, 0, 4, 2);
    put(&mut b, 3, 0, 9, 1);
    assert_eq!(max_players_for(&b), 3);
}

#[test]
fn centre_pick_for_first_move() {
    let b = empty(5);
    assert_eq!(first_move_center(&b, 5), Some((2, 2)));
    assert_eq!(find_best_move_strategy(&b, 5, 0, &[], 2, 0, None, BorderMode::Default, CapMode::Cap4), Some((2, 2)));
    assert_eq!(find_best_move(&b, 5, 0, 2, &[], 2, 0, None, false, BorderMode::Default, CapMode::Cap4, 0, &NoModel), Some((2, 2)));
    let mut e = empty(4);
    put(&mut e, 1, 1, 1, 1);
    assert_eq!(first_move_center(&e, 4), Some((2, 3)));
}

#[test]
fn searches_take_the_only_move() {
    let mut b = empty(5);
    put(&mut b, 0, 0, 0, 1);
    for (x, y) in [(1, 0), (0, 1), (1, 1), (2, 2), (4, 4)] {
        put(&mut b, x, y, 1, 1);
    }
    let only = Some((0, 0));
    assert_eq!(find_best_move(&b, 5, 0, 3, &[], 2, 0, None, false, BorderMode::Default, CapMode::Cap4, 0, &NoModel), only);
    assert_eq!(find_best_move_pvs(&b, 5, 0, 3, &[], 2, 0, false, BorderMode::Default, CapMode::Cap4, 0, &NoModel), only);
    let mut full = empty(3);
    put(&mut full, 0, 0, 0, 3);
    assert_eq!(find_best_move(&full, 3, 0, 2, &[], 2, 0, None, false, BorderMode::Degrade, CapMode::Cap4, 0, &NoModel), None);
    assert_eq!(find_best_move_pvs(&full, 3, 0, 2, &[], 2, 0, false, BorderMode::Degrade, CapMode::Cap4, 0, &NoModel), None);
}

#[test]
fn searches_pick_own_squares() {
    let mut b = empty(7);
    put(&mut b, 3, 3, 0, 2);
    put(&mut b, 1, 1, 0, 1);
    put(&mut b, 5, 5, 1, 3);
    put(&mut b, 5, 4, 1, 1);
    for mv in [
        find_best_move(&b, 7, 0, 2, &[], 2, 3, None, false, BorderMode::Wrap, CapMode::Cap4, 0, &NoModel),
        find_best_move_pvs(&b, 7, 0, 2, &[], 2, 3, false, BorderMode::Wrap, CapMode::Cap4, 0, &NoModel),
        find_best_move_strategy(&b, 7, 0, &[], 2, 3, None, BorderMode::Wrap, CapMode::Cap4),
    ] {
        let (x, y) = mv.expect("a move");
        assert_eq!(b[x][y].owner, Some(0));
    }
}

#[test]
fn ordering_puts_critical_squares_first() {
    let mut b = empty(5);
    put(&mut b, 0, 0, 0, 1);
    put(&mut b, 2, 2, 0, 3);
    put(&mut b, 4, 4, 0, 2);
    put(&mut b, 4, 3, 1, 2);
    let moves = vec![(0, 0), (2, 2), (4, 4)];
    let ord = order_moves(moves, &b, 5, 0, BorderMode::Default, CapMode::Cap4);
    assert_eq!(ord, vec![(2, 2), (4, 4), (0, 0)]);
}

#[test]
fn neighbourhood_counts() {
    let mut b = empty(5);
    put(&mut b, 0, 2, 0, 2);
    put(&mut b, 4, 2, 1, 2);
    put(&mut b, 1, 2, 1, 3);
    put(&mut b, 0, 1, 2, 2);
    assert_eq!(count_opponent_level_around(&b, 5, 0, 2, 0, 2, BorderMode::Wrap), 2);
    assert_eq!(count_opponent_level_around(&b, 5, 0, 2, 0, 2, BorderMode::Default), 1);
    assert_eq!(count_any_opponent_around(&b, 5, 0, 2, 0, BorderMode::Wrap), 3);
    assert!(has_opponent_level_near(&b, 5, 0, 2, 0, 3, BorderMode::Default));
    assert!(!has_opponent_level_near(&b, 5, 0, 2, 0, 4, BorderMode::Wrap));
}

#[test]
fn strategy_falls_back_to_own_square() {
    let mut b = empty(3);
    put(&mut b, 0, 0, 0, 2);
    put(&mut b, 2, 2, 1, 1);
    assert_eq!(find_best_move_strategy(&b, 3, 0, &[], 2, 0, None, BorderMode::Degrade, CapMode::Cap4), Some((0, 0)));
}

fn sample_board(c23: u8) -> GameBoard {
    let mut b = empty(5);
    put(&mut b, 2, 2, 0, 3);
    put(&mut b, 2, 3, 1, c23);
    put(&mut b, 0, 0, 0, 1);
    b
}

#[test]
fn evaluation_values() {
    let a = sample_board(2);
    assert_eq!(eval_board_handcraft(&a, 0, 5, BorderMode::Default, CapMode::Cap4, 0), 38);
    assert_eq!(eval_board_improved(&a, 0, 5, BorderMode::Default, CapMode::Cap4, 0), 25);
    assert_eq!(eval_board_improved(&a, 0, 0, BorderMode::Default, CapMode::Cap4, 0), 24);
    assert_eq!(eval_board_improved(&a, 0, 3, BorderMode::Default, CapMode::Cap4, 10), 25);
    let b = sample_board(1);
    assert_eq!(hash_board(&b), 9624673872311323304);
    assert_eq!(eval_board_handcraft(&b, 0, 5, BorderMode::Default, CapMode::Cap4, 0), 43);
    assert_eq!(eval_board_handcraft(&b, 0, 0, BorderMode::Default, CapMode::Cap4, 0), 25);
    assert_eq!(eval_board_improved(&b, 0, 5, BorderMode::Default, CapMode::Cap4, 0), 32);
    assert_eq!(eval_board_improved(&b, 0, 0, BorderMode::Default, CapMode::Cap4, 0), 13);
    assert_eq!(eval_board(&a, 0, 5, false, BorderMode::Default, CapMode::Cap4, 0, &NoModel), 38);
    assert_eq!(eval_board(&a, 0, 5, true, BorderMode::Default, CapMode::Cap4, 0, &NoModel), 8);
    assert_eq!(ml_blend(30, 10), 23);
    assert_eq!(ml_blend(-30, 10), -16);
}

#[test]
fn threshold_rule_on_own_square() {
    for (cm, below, at) in [(CapMode::Cap3, 1u8, 2u8), (CapMode::Cap4, 2, 3), (CapMode::Cap5, 3, 4)] {
        let mut quiet = empty(5);
        put(&mut quiet, 2, 2, 0, below);
        put(&mut quiet, 4, 4, 1, 1);
        let mut expect = quiet.clone();
        expect[2][2].count = below + 1;
        let (_e, chain) = process_click(&mut quiet, 5, 2, 2, 0, 2, BorderMode::Bounce, cm, Some(5));
        assert_eq!(chain, 0);
        assert_eq!(quiet, expect);
        let mut boom = empty(5);
        put(&mut boom, 2, 2, 0, at);
        put(&mut boom, 4, 4, 1, 1);
        let (_e, chain) = process_click(&mut boom, 5, 2, 2, 0, 2, BorderMode::Bounce, cm, Some(5));
        assert!(chain >= 1);
    }
}

#[test]
fn only_the_clicker_gains_squares() {
    for bm in [BorderMode::Default, BorderMode::Wrap, BorderMode::Bounce, BorderMode::Degrade, BorderMode::Random] {
        for cm in [CapMode::Cap3, CapMode::Cap4, CapMode::Cap5, CapMode::Random] {
            let mut b = empty(6);
            for i in 0..6 {
                for j in 0..6 {
                    put(&mut b, i, j, (i * 6 + j) % 3, ((i + j) % 4) as u8 + 1);
                }
            }
            put(&mut b, 2, 2, 1, 4);
            let before = b.clone();
            process_click(&mut b, 6, 2, 2, 1, 3, bm, cm, Some(11));
            for i in 0..6 {
                for j in 0..6 {
                    let c = b[i][j];
                    assert!(c == before[i][j] || c.owner == Some(1) || (c.owner.is_none() && c.count == 0), "{bm:?} {cm:?} ({i},{j})");
                }
            }
        }
    }
}

#[test]
fn alphabeta_takes_the_winning_capture() {
    let mut b = empty(5);
    put(&mut b, 0, 0, 0, 0);
    put(&mut b, 2, 2, 0, 3);
    put(&mut b, 2, 3, 1, 0);
    for depth in 1..3 {
        assert_eq!(
            find_best_move(&b, 5, 0, depth, &[], 2, 0, None, false, BorderMode::Default, CapMode::Cap4, 0, &NoModel),
            Some((2, 2))
        );
    }
    // Three plies deep the quiet move wins as well (the capture still comes after the
    // opponent's only reply); of equal values the later-ordered move is taken.
    assert_eq!(
        find_best_move(&b, 5, 0, 3, &[], 2, 0, None, false, BorderMode::Default, CapMode::Cap4, 0, &NoModel),
        Some((0, 0))
    );
}
