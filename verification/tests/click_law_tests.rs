use chain_chess_lib::{
    cell_threshold, parse_algs, eval_board, eval_board_handcraft, eval_board_improved, MlScore, process_click_with_killer, process_click_with_snapshots, BorderMode, CapMode, Cell, GameBoard, SelfPlay,
    SelfPlayAction,
};

const BORDERS: [BorderMode; 5] = [BorderMode::Default, BorderMode::Wrap, BorderMode::Bounce, BorderMode::Degrade, BorderMode::Random];
const CAPS: [CapMode; 4] = [CapMode::Cap3, CapMode::Cap4, CapMode::Cap5, CapMode::Random];

fn blank(sz: usize) -> GameBoard {
    vec![vec![Cell { owner: None, count: 0, th: None }; sz]; sz]
}

fn put(b: &mut GameBoard, x: usize, y: usize, owner: usize, count: u8) {
    b[x][y] = Cell { owner: Some(owner), count, th: None };
}

/// A position where a click at the centre sets off a chain through both players'
/// squares.
fn crowded() -> GameBoard {
    let mut b = blank(5);
    put(&mut b, 2, 2, 0, 4);
    put(&mut b, 2, 1, 0, 3);
    put(&mut b, 1, 2, 1, 2);
    put(&mut b, 3, 2, 1, 2);
    put(&mut b, 2, 3, 1, 3);
    put(&mut b, 0, 0, 1, 1);
    b
}

#[test]
fn seeded_snapshot_click_matches_plain_click() {
    for &bm in &BORDERS {
        for &cm in &CAPS {
            for seed in 0..6u64 {
                let start = crowded();
                let mut b1 = start.clone();
                let (e, c, k, steps, ex) = process_click_with_snapshots(&mut b1, 5, 2, 2, 0, 2, bm, cm, Some(seed));
                let mut b2 = start.clone();
                let r = process_click_with_killer(&mut b2, 5, 2, 2, 0, 2, bm, cm, Some(seed));
                assert_eq!((e.clone(), c, k.clone()), r, "{bm:?} {cm:?} seed {seed}");
                assert_eq!(b1, b2);
                assert_eq!(steps.len(), c as usize);
                assert_eq!(ex.len(), c as usize);
                if c > 0 {
                    assert_eq!(steps.last().unwrap(), &b1);
                }
                let mut b3 = start.clone();
                let again = process_click_with_killer(&mut b3, 5, 2, 2, 0, 2, bm, cm, Some(seed));
                assert_eq!(again, (e, c, k));
                assert_eq!(b3, b1);
            }
        }
    }
}

#[test]
fn rival_square_click_changes_nothing() {
    let mut b = blank(4);
    put(&mut b, 1, 1, 1, 2);
    put(&mut b, 0, 0, 0, 1);
    for &bm in &BORDERS {
        for &cm in &CAPS {
            let mut nb = b.clone();
            let r = process_click_with_snapshots(&mut nb, 4, 1, 1, 0, 2, bm, cm, Some(3));
            assert_eq!(r, (vec![], 0, vec![], vec![], vec![]));
            assert_eq!(nb, b);
        }
    }
}

#[test]
fn eliminated_player_is_listed_with_clicker() {
    let mut b = blank(3);
    put(&mut b, 0, 0, 0, 3);
    put(&mut b, 0, 1, 1, 1);
    let (e, c, k) = process_click_with_killer(&mut b, 3, 0, 0, 0, 2, BorderMode::Default, CapMode::Cap4, Some(0));
    assert_eq!(c, 1);
    assert_eq!(e, vec![1]);
    assert_eq!(k, vec![(1, 0)]);
    assert_eq!(b[0][1].owner, Some(0));
    assert_eq!(b[1][0].owner, Some(0));
    assert_eq!(b[0][0], Cell { owner: None, count: 0, th: None });
}

#[test]
fn clicker_survives_its_own_chain() {
    for &bm in &BORDERS {
        for &cm in &CAPS {
            for seed in 0..4u64 {
                let mut b = crowded();
                let (e, _c, k) = process_click_with_killer(&mut b, 5, 2, 2, 0, 2, bm, cm, Some(seed));
                assert!(!e.contains(&0));
                let expected: Vec<(usize, usize)> = e.iter().map(|&v| (v, 0)).collect();
                assert_eq!(k, expected);
                assert!(b.iter().flatten().any(|c| c.owner == Some(0)));
            }
        }
    }
}

#[test]
fn changed_squares_end_below_threshold() {
    let fixed_borders = [BorderMode::Default, BorderMode::Wrap, BorderMode::Bounce, BorderMode::Degrade];
    let fixed_caps = [CapMode::Cap3, CapMode::Cap4, CapMode::Cap5];
    for &bm in &fixed_borders {
        for &cm in &fixed_caps {
            let start = crowded();
            let mut b = start.clone();
            let (_e, c, _k) = process_click_with_killer(&mut b, 5, 2, 2, 0, 2, bm, cm, Some(9));
            assert!(c > 0);
            for i in 0..5 {
                for j in 0..5 {
                    if b[i][j] != start[i][j] {
                        assert!((b[i][j].count as u32) < cell_threshold(i, j, 5, bm, cm), "{bm:?} {cm:?} ({i},{j})");
                    }
                }
            }
        }
    }
}

#[test]
fn selfplay_first_turn_asks_player_zero() {
    let mut game = SelfPlay::start(5, 2);
    assert_eq!(game.board, blank(5));
    let act = game.next(BorderMode::Default, CapMode::Cap4);
    let moves = match act {
        SelfPlayAction::Ask(p, moves) => {
            assert_eq!(p, 0);
            moves
        },
        _ => panic!("player 0 must be asked first"),
    };
    assert_eq!(moves.len(), 25);
    let rec = game.apply(2, 2, BorderMode::Default, CapMode::Cap4);
    assert_eq!(rec.turn, 0);
    assert_eq!(rec.cur_player, 0);
    assert_eq!((rec.move_x, rec.move_y), (2, 2));
    assert!(rec.live_players.is_empty());
    assert!(rec.eliminated.is_empty());
    assert!(!rec.game_over);
    assert_eq!(rec.winner, None);
    assert_eq!(game.board[2][2].owner, Some(0));
    assert_eq!(game.cur, 1);
    assert_eq!(game.turn, 1);
}

#[test]
fn selfplay_random_game_ends() {
    let mut game = SelfPlay::start(4, 2);
    let mut last_turn = None;
    let mut ended = false;
    for _ in 0..20000 {
        match game.next(BorderMode::Default, CapMode::Cap4) {
            SelfPlayAction::Finished => {
                ended = true;
                break;
            },
            SelfPlayAction::Pass => continue,
            SelfPlayAction::Ask(p, legal) => {
                let m = SelfPlay::pick(None, &legal);
                assert!(legal.contains(&m));
                let rec = game.apply(m.0, m.1, BorderMode::Default, CapMode::Cap4);
                assert_eq!(rec.cur_player, p);
                if let Some(t) = last_turn {
                    assert_eq!(rec.turn, t + 1);
                }
                last_turn = Some(rec.turn);
                if rec.game_over {
                    assert_eq!(rec.eliminated.len(), 1);
                    assert_eq!(rec.winner, Some(1 - rec.eliminated[0]));
                    ended = true;
                    break;
                }
            },
        }
    }
    assert!(ended);
    assert_eq!(SelfPlay::pick(Some((1, 2)), &vec![(0, 0)]), (1, 2));
}

#[test]
fn handcrafted_eval_is_zero_sum_for_two_players() {
    let b = crowded();
    for &cm in &CAPS {
        let a = eval_board_handcraft(&b, 0, 10, BorderMode::Default, cm, 0);
        let c = eval_board_handcraft(&b, 1, 10, BorderMode::Default, cm, 0);
        assert_eq!(a, -c, "{cm:?}");
        assert_ne!(a, 0);
        let a2 = eval_board_handcraft(&b, 0, 0, BorderMode::Default, cm, 0);
        let c2 = eval_board_handcraft(&b, 1, 0, BorderMode::Default, cm, 0);
        assert_eq!(a2 - a, c2 - c, "{cm:?}: the opening perturbation is the same for both players");
        let i0 = eval_board_improved(&b, 0, 10, BorderMode::Default, cm, 0);
        let i1 = eval_board_improved(&b, 1, 10, BorderMode::Default, cm, 0);
        assert_eq!(i0, -i1, "{cm:?}: improved");
    }
}

/// A model that scores a board by the pieces of the player it is asked about.
struct CountModel;

impl MlScore for CountModel {
    fn ml_score(&self, board: &Vec<Vec<Cell>>, player: usize, _bm: BorderMode, _cm: CapMode) -> i32 {
        board.iter().flatten().filter(|c| c.owner == Some(player)).map(|c| c.count as i32).sum::<i32>() * 100
    }
}

#[test]
fn learned_eval_mixes_the_model_score_for_the_asked_player() {
    let b = crowded();
    for &cm in &CAPS {
        for player in 0..2usize {
            let m = CountModel.ml_score(&b, player, BorderMode::Default, cm);
            let h = eval_board_improved(&b, player, 10, BorderMode::Default, cm, 0);
            let x = 2 * m as i64 + h as i64;
            let expected = if x >= 0 { x / 3 } else { -((-x) / 3) };
            let r = eval_board(&b, player, 10, true, BorderMode::Default, cm, 0, &CountModel);
            assert_eq!(r as i64, expected, "{cm:?} player {player}");
        }
    }
    let r0 = eval_board(&b, 0, 10, true, BorderMode::Default, CapMode::Cap4, 0, &CountModel);
    let r1 = eval_board(&b, 1, 10, true, BorderMode::Default, CapMode::Cap4, 0, &CountModel);
    assert_ne!(r0, r1);
}

#[test]
fn quiet_click_only_places_the_piece() {
    let mut b = blank(5);
    put(&mut b, 1, 1, 0, 1);
    put(&mut b, 3, 3, 1, 2);
    let start = b.clone();
    let (e, c, k) = process_click_with_killer(&mut b, 5, 1, 1, 0, 2, BorderMode::Default, CapMode::Cap4, Some(5));
    assert_eq!((e, c, k), (vec![], 0, vec![]));
    assert_eq!(b[1][1], Cell { owner: Some(0), count: 2, th: None });
    let mut b2 = b.clone();
    let (e2, c2, _) = process_click_with_killer(&mut b2, 5, 0, 4, 0, 2, BorderMode::Default, CapMode::Cap4, Some(5));
    assert_eq!((e2, c2), (vec![], 0));
    assert_eq!(b2[0][4], Cell { owner: Some(0), count: 1, th: None });
    for i in 0..5 {
        for j in 0..5 {
            if (i, j) != (1, 1) {
                assert_eq!(b[i][j], start[i][j]);
            }
        }
    }
}

#[test]
fn algorithm_list_round_trip() {
    let names = vec!["strategy".to_string(), "alpha beta".to_string(), "pvs".to_string(), "mcts".to_string()];
    let joined = names.join(",");
    assert_eq!(parse_algs(&joined), names);
    assert_eq!(parse_algs("pvs"), vec!["pvs".to_string()]);
}
