use chain_chess_lib::{
    find_best_move, find_best_move_pvs, find_best_move_strategy, get_moves, process_click_with_killer, spread_starts,
    BorderMode, CapMode, Cell, GameBoard, MlScore, SimAction, Simulation,
};

const ALL_BM: [BorderMode; 5] = [BorderMode::Default, BorderMode::Wrap, BorderMode::Bounce, BorderMode::Degrade, BorderMode::Random];
const ALL_CM: [CapMode; 4] = [CapMode::Cap3, CapMode::Cap4, CapMode::Cap5, CapMode::Random];

/// A stand-in for the learned model: it scores every board the same.
struct FlatModel;

impl MlScore for FlatModel {
    fn ml_score(&self, _board: &Vec<Vec<Cell>>, _player: usize, _bm: BorderMode, _cm: CapMode) -> i32 {
        0
    }
}

fn mk_b(sz: usize) -> GameBoard {
    vec![vec![Cell { owner: None, count: 0, th: None }; sz]; sz]
}

fn set(b: &mut GameBoard, x: usize, y: usize, owner: usize, count: u8) {
    b[x][y] = Cell { owner: Some(owner), count, th: None };
}

fn do_click(b: &GameBoard, sz: usize, x: usize, y: usize, pl: usize, max: usize, bm: BorderMode, cm: CapMode, seed: Option<u64>) -> (GameBoard, Vec<usize>, Vec<(usize, usize)>) {
    let mut nb = b.clone();
    let (elim, _cc, kb) = process_click_with_killer(&mut nb, sz, x, y, pl, max, bm, cm, seed);
    (nb, elim, kb)
}

fn boom_check(bm: BorderMode, cm: CapMode, start_count: u8, seed: u64) -> (bool, GameBoard) {
    let sz = 5;
    let mut b = mk_b(sz);
    set(&mut b, 2, 2, 0, start_count);
    let (nb, _, _) = do_click(&b, sz, 2, 2, 0, 2, bm, cm, Some(seed));
    (nb[2][2].owner.is_none(), nb)
}

/// The candidate squares on a circle around the centre, as the layout of a game
/// between programs computes them.
fn start_candidates(sz: usize, n: usize) -> Vec<(usize, usize)> {
    let cx = sz as f64 / 2.0 - 0.5;
    let cy = sz as f64 / 2.0 - 0.5;
    let r = (cx.min(cy) * 0.72).max(0.5);
    let mut out = Vec::new();
    for i in 0..n {
        let ang = 2.0 * std::f64::consts::PI * i as f64 / n as f64 - std::f64::consts::FRAC_PI_2;
        let x = (cx + r * ang.cos()).round() as usize;
        let y = (cy + r * ang.sin()).round() as usize;
        out.push((x, y));
    }
    out
}

#[test]
fn threshold_cap3_all_borders() {
    for &bm in &ALL_BM {
        let (boom, _) = boom_check(bm, CapMode::Cap3, 2, 1);
        assert!(boom, "cap3 {bm:?}: count2+1 should boom");
        let (boom2, nb) = boom_check(bm, CapMode::Cap3, 1, 1);
        assert!(!boom2, "cap3 {bm:?}: count1+1 should not boom");
        assert_eq!(nb[2][2].count, 2);
    }
}

#[test]
fn threshold_cap4_all_borders() {
    for &bm in &ALL_BM {
        let (boom, _) = boom_check(bm, CapMode::Cap4, 3, 1);
        assert!(boom, "cap4 {bm:?}: count3+1 should boom");
        let (boom2, nb) = boom_check(bm, CapMode::Cap4, 2, 1);
        assert!(!boom2, "cap4 {bm:?}: count2+1 should not boom");
        assert_eq!(nb[2][2].count, 3);
    }
    let mut b = mk_b(5);
    set(&mut b, 0, 0, 0, 1);
    let (nb, _, _) = do_click(&b, 5, 0, 0, 0, 2, BorderMode::Degrade, CapMode::Cap4, Some(1));
    assert!(nb[0][0].owner.is_none(), "degrade corner count1+1 should boom");
}

#[test]
fn threshold_cap5_all_borders() {
    for &bm in &ALL_BM {
        let (boom, _) = boom_check(bm, CapMode::Cap5, 4, 1);
        assert!(boom, "cap5 {bm:?}: count4+1 should boom");
        let (boom2, nb) = boom_check(bm, CapMode::Cap5, 3, 1);
        assert!(!boom2, "cap5 {bm:?}: count3+1 should not boom");
        assert_eq!(nb[2][2].count, 4);
    }
}

#[test]
fn capmode_overrides_degrade() {
    let mut b = mk_b(5);
    set(&mut b, 0, 0, 0, 2);
    let (nb, _, _) = do_click(&b, 5, 0, 0, 0, 2, BorderMode::Degrade, CapMode::Cap3, Some(1));
    assert!(nb[0][0].owner.is_none(), "cap3+degrade corner count2+1 should boom");
    let mut b5 = mk_b(5);
    set(&mut b5, 0, 0, 0, 1);
    let (nb5, _, _) = do_click(&b5, 5, 0, 0, 0, 2, BorderMode::Degrade, CapMode::Cap5, Some(1));
    assert_eq!(nb5[0][0].count, 2, "cap5+degrade corner count1+1 should NOT boom");
}

#[test]
fn diffusion_default_wrap_bounce() {
    let mut b = mk_b(5);
    set(&mut b, 0, 0, 0, 3);
    let (nb, _, _) = do_click(&b, 5, 0, 0, 0, 2, BorderMode::Default, CapMode::Cap4, Some(1));
    assert_eq!(nb[1][0].count, 1);
    assert_eq!(nb[0][1].count, 1);
    assert!(nb[0][0].owner.is_none());
    let mut bw = mk_b(5);
    set(&mut bw, 0, 0, 0, 3);
    let (nbw, _, _) = do_click(&bw, 5, 0, 0, 0, 2, BorderMode::Wrap, CapMode::Cap4, Some(1));
    assert_eq!(nbw[1][0].count, 1);
    assert_eq!(nbw[0][1].count, 1);
    assert_eq!(nbw[4][0].count, 1, "wrap corner should wrap to bottom");
    assert_eq!(nbw[0][4].count, 1, "wrap corner should wrap to right");
    let mut bb = mk_b(5);
    set(&mut bb, 0, 0, 0, 3);
    let (nbb, _, _) = do_click(&bb, 5, 0, 0, 0, 2, BorderMode::Bounce, CapMode::Cap4, Some(1));
    assert_eq!(nbb[1][0].count, 2, "bounce corner: (1,0) gets base+rebound");
    assert_eq!(nbb[0][1].count, 2, "bounce corner: (0,1) gets base+rebound");
    assert!(nbb[0][0].owner.is_none());
    let mut bc = mk_b(5);
    set(&mut bc, 2, 2, 0, 3);
    let (nbc, _, _) = do_click(&bc, 5, 2, 2, 0, 2, BorderMode::Bounce, CapMode::Cap4, Some(1));
    for (x, y) in [(1usize, 2usize), (3, 2), (2, 1), (2, 3)] {
        assert_eq!(nbc[x][y].count, 1, "bounce center: no rebound");
    }
}

#[test]
fn cap3_random_zero_add_all_borders() {
    for &bm in &ALL_BM {
        let sz = 5;
        let mut b = mk_b(sz);
        set(&mut b, 2, 2, 0, 2);
        let (nb, _, _) = do_click(&b, sz, 2, 2, 0, 2, bm, CapMode::Cap3, Some(42));
        let dirs = [(1usize, 2usize), (3, 2), (2, 1), (2, 3)];
        let own0 = dirs.iter().filter(|(x, y)| nb[*x][*y].owner == Some(0)).count();
        let empty = dirs.iter().filter(|(x, y)| nb[*x][*y].owner.is_none()).count();
        assert_eq!(own0, 3, "cap3 {bm:?}: exactly 3 dirs get piece");
        assert_eq!(empty, 1, "cap3 {bm:?}: exactly 1 dir cleared");
        assert!(nb[2][2].owner.is_none());
    }
}

#[test]
fn cap5_random_plus_two_all_borders() {
    for &bm in &ALL_BM {
        let sz = 5;
        let mut b = mk_b(sz);
        set(&mut b, 2, 2, 0, 4);
        let (nb, _, _) = do_click(&b, sz, 2, 2, 0, 2, bm, CapMode::Cap5, Some(77));
        let dirs = [(1usize, 2usize), (3, 2), (2, 1), (2, 3)];
        let two = dirs.iter().filter(|(x, y)| nb[*x][*y].count == 2).count();
        let one = dirs.iter().filter(|(x, y)| nb[*x][*y].count == 1).count();
        assert_eq!(two, 1, "cap5 {bm:?}: exactly 1 dir becomes level 2");
        assert_eq!(one, 3, "cap5 {bm:?}: other 3 dirs +1");
    }
}

#[test]
fn randomness_deterministic_by_seed() {
    let sz = 5;
    let mut b = mk_b(sz);
    set(&mut b, 2, 2, 0, 2);
    let (nb1, _, _) = do_click(&b, sz, 2, 2, 0, 2, BorderMode::Default, CapMode::Cap3, Some(42));
    let (nb2, _, _) = do_click(&b, sz, 2, 2, 0, 2, BorderMode::Default, CapMode::Cap3, Some(42));
    assert_eq!(nb1, nb2, "same seed must give same result");
    let mut cleared_positions = std::collections::HashSet::new();
    for seed in 0..12u64 {
        let (nb, _, _) = do_click(&b, sz, 2, 2, 0, 2, BorderMode::Default, CapMode::Cap3, Some(seed));
        for (x, y) in [(1usize, 2usize), (3, 2), (2, 1), (2, 3)] {
            if nb[x][y].owner.is_none() {
                cleared_positions.insert((x, y));
            }
        }
    }
    assert!(cleared_positions.len() > 1, "different seeds should vary cleared cell");
}

#[test]
fn cap3_zero_keeps_owned_cell() {
    let sz = 5;
    for seed in 0..40u64 {
        let mut b = mk_b(sz);
        set(&mut b, 2, 2, 0, 2);
        set(&mut b, 1, 2, 1, 1);
        let (nb, _, _) = do_click(&b, sz, 2, 2, 0, 2, BorderMode::Default, CapMode::Cap3, Some(seed));
        let up = nb[1][2];
        assert!(
            (up.owner == Some(1) && up.count == 1) || (up.owner == Some(0) && up.count == 2),
            "cap3 上邻居不应被清空: got {:?}",
            up
        );
    }
}

#[test]
fn cap5_two_adds_on_owned_cell() {
    let sz = 5;
    let mut hit_plus2 = false;
    for seed in 0..60u64 {
        let mut b = mk_b(sz);
        set(&mut b, 2, 2, 0, 4);
        set(&mut b, 1, 2, 1, 1);
        let (nb, _, _) = do_click(&b, sz, 2, 2, 0, 2, BorderMode::Default, CapMode::Cap5, Some(seed));
        let up = nb[1][2];
        if up.owner == Some(0) && up.count == 3 {
            hit_plus2 = true;
        }
        assert!(up.owner == Some(0) && (up.count == 2 || up.count == 3), "cap5 上邻居应为覆盖+1或+2: got {:?}", up);
    }
    assert!(hit_plus2, "cap5 特殊格应至少一次加 2（1 级格 → 3 级）");
}

#[test]
fn elimination_and_killer() {
    let sz = 5;
    let mut b = mk_b(sz);
    set(&mut b, 2, 2, 0, 3);
    set(&mut b, 2, 3, 1, 1);
    let (nb, elim, kb) = do_click(&b, sz, 2, 2, 0, 2, BorderMode::Default, CapMode::Cap4, Some(1));
    assert_eq!(nb[2][2].owner, None);
    assert_eq!(elim, vec![1], "player1 should be eliminated");
    assert!(kb.contains(&(1, 0)), "killer of player1 should be player0: {:?}", kb);
}

#[test]
fn no_deadlock_low_threshold() {
    let sz = 5;
    let mut b = mk_b(sz);
    for i in 1..4 {
        for j in 1..4 {
            set(&mut b, i, j, 0, 2);
        }
    }
    let (nb, _, _) = do_click(&b, sz, 2, 2, 0, 2, BorderMode::Default, CapMode::Cap3, Some(1));
    let _ = nb;
}

/// Plays a game between rule-based players to its end, as `simulate_to_end` does
/// with the `strategy` algorithm for every player.
fn play_out_strategy(b: GameBoard, sz: usize, max_players: usize, bm: BorderMode, cm: CapMode) -> chain_chess_lib::SimulateResult {
    let mut s = Simulation::new(b, sz, max_players, 0, vec![], bm, cm, 0);
    loop {
        match s.next() {
            SimAction::Finish(w) => return s.into_result(w),
            SimAction::Ask(p) => {
                let mv = find_best_move_strategy(&s.board, sz, p, &s.eliminated, max_players, s.game_count, None, bm, cm);
                if let Some(w) = s.apply(mv) {
                    return s.into_result(w);
                }
            }
        }
    }
}

#[test]
fn simulate_to_end_all_combos_replayable() {
    for &bm in &ALL_BM {
        for &cm in &ALL_CM {
            let sz = 7;
            let max_players = 3;
            let mut b = mk_b(sz);
            for (x, y, p) in [(0usize, 0usize, 0usize), (0, 6, 1), (6, 0, 2), (6, 6, 0), (3, 3, 1), (1, 1, 2)] {
                b[x][y] = Cell { owner: Some(p), count: 3, th: b[x][y].th };
            }
            let r = play_out_strategy(b.clone(), sz, max_players, bm, cm);
            assert!(!r.history.is_empty(), "{bm:?}×{cm:?}: sim should produce history");
            assert!(r.winner.is_some() || !r.eliminated_order.is_empty(), "{bm:?}×{cm:?}: sim should conclude");
            let mut rb = b.clone();
            for h in &r.history {
                let mv = h.mv.expect("mv with seed");
                let (x, y, pl, seed) = (mv[0] as usize, mv[1] as usize, mv[2] as usize, mv[3]);
                process_click_with_killer(&mut rb, sz, x, y, pl, max_players, bm, cm, Some(seed));
            }
            assert_eq!(rb, r.board, "{bm:?}×{cm:?}: replay must match simulation");
        }
    }
}

#[test]
fn first_move_level_n_minus_1() {
    let sz = 5;
    let b = mk_b(sz);
    let (nb, _, _) = do_click(&b, sz, 2, 2, 0, 2, BorderMode::Default, CapMode::Cap3, Some(1));
    assert_eq!(nb[2][2].count, 2, "cap3 首子应为 2 级");
    assert_eq!(nb[2][2].owner, Some(0));
    let b4 = mk_b(sz);
    let (nb4, _, _) = do_click(&b4, sz, 2, 2, 0, 2, BorderMode::Default, CapMode::Cap4, Some(1));
    assert_eq!(nb4[2][2].count, 3, "cap4 首子应为 3 级");
    let b5 = mk_b(sz);
    let (nb5, _, _) = do_click(&b5, sz, 2, 2, 0, 2, BorderMode::Default, CapMode::Cap5, Some(1));
    assert_eq!(nb5[2][2].count, 4, "cap5 首子应为 4 级");
    assert!(nb[2][2].owner.is_some(), "cap3 首子 2 级不应爆炸");
}

#[test]
fn capmode_random_thresholds() {
    let sz = 5;
    let mut th3 = false;
    let mut th5 = false;
    for seed in 0..60u64 {
        let mut b3 = mk_b(sz);
        set(&mut b3, 2, 2, 0, 2);
        let (n3, _, _) = do_click(&b3, sz, 2, 2, 0, 2, BorderMode::Default, CapMode::Random, Some(seed));
        if n3[2][2].owner.is_none() {
            th3 = true;
        }
        let mut b5 = mk_b(sz);
        set(&mut b5, 2, 2, 0, 3);
        let (n5, _, _) = do_click(&b5, sz, 2, 2, 0, 2, BorderMode::Default, CapMode::Random, Some(seed));
        if n5[2][2].owner.is_some() && n5[2][2].count == 4 {
            th5 = true;
        }
    }
    assert!(th3, "随机阈值应出现 3");
    assert!(th5, "随机阈值应出现 5");
    let mut b = mk_b(sz);
    set(&mut b, 2, 2, 0, 2);
    let (r1, _, _) = do_click(&b, sz, 2, 2, 0, 2, BorderMode::Default, CapMode::Random, Some(7));
    let (r2, _, _) = do_click(&b, sz, 2, 2, 0, 2, BorderMode::Default, CapMode::Random, Some(7));
    assert_eq!(r1, r2, "同 seed 随机阈值应一致");
}

#[test]
fn bordermode_random_runs() {
    let sz = 5;
    let mut b = mk_b(sz);
    set(&mut b, 0, 0, 0, 3);
    let (nb, _, _) = do_click(&b, sz, 0, 0, 0, 2, BorderMode::Random, CapMode::Cap4, Some(5));
    assert!(nb[0][0].owner.is_none(), "随机边界下 cap4 3+1=4 应炸");
    let (r1, _, _) = do_click(&b, sz, 0, 0, 0, 2, BorderMode::Random, CapMode::Cap4, Some(5));
    let (r2, _, _) = do_click(&b, sz, 0, 0, 0, 2, BorderMode::Random, CapMode::Cap4, Some(5));
    assert_eq!(r1, r2, "同 seed 随机边界应一致");
    let mut diff = false;
    let base = do_click(&b, sz, 0, 0, 0, 2, BorderMode::Random, CapMode::Cap4, Some(1)).0;
    for seed in 0..20u64 {
        let r = do_click(&b, sz, 0, 0, 0, 2, BorderMode::Random, CapMode::Cap4, Some(seed)).0;
        if r != base {
            diff = true;
            break;
        }
    }
    assert!(diff, "随机边界不同 seed 应有不同扩散结果");
}

#[test]
fn get_moves_cap5_includes_explosive() {
    let sz = 5;
    let mut b = mk_b(sz);
    set(&mut b, 2, 2, 0, 4);
    let mvs5 = get_moves(&b, sz, 0, None, BorderMode::Default, CapMode::Cap5);
    assert!(mvs5.contains(&(2, 2)), "cap5: count4 explosive move must be legal, got {:?}", mvs5);
    let mvs3 = get_moves(&b, sz, 0, None, BorderMode::Default, CapMode::Cap3);
    assert!(!mvs3.contains(&(2, 2)), "cap3: count4 must not be legal");
    let mut b3 = mk_b(sz);
    set(&mut b3, 2, 2, 0, 2);
    let mvs3b = get_moves(&b3, sz, 0, None, BorderMode::Default, CapMode::Cap3);
    assert!(mvs3b.contains(&(2, 2)), "cap3: count2 critical move must be legal");
}

#[test]
fn strategy_cap3_explodes_on_pair() {
    let sz = 5;
    let mut b = mk_b(sz);
    set(&mut b, 2, 2, 0, 2);
    set(&mut b, 2, 3, 1, 2);
    let mv = find_best_move_strategy(&b, sz, 0, &[], 2, 0, None, BorderMode::Default, CapMode::Cap3);
    assert_eq!(mv, Some((2, 2)), "cap3 strategy should explode pair (2v2), got {:?}", mv);
}

#[test]
fn strategy_cap5_explodes_on_quad() {
    let sz = 5;
    let mut b = mk_b(sz);
    set(&mut b, 2, 2, 0, 4);
    set(&mut b, 2, 3, 1, 4);
    let mv = find_best_move_strategy(&b, sz, 0, &[], 2, 0, None, BorderMode::Default, CapMode::Cap5);
    assert_eq!(mv, Some((2, 2)), "cap5 strategy should explode quad (4v4), got {:?}", mv);
}

#[test]
fn strategy_cap4_explodes_on_triple() {
    let sz = 5;
    let mut b = mk_b(sz);
    set(&mut b, 2, 2, 0, 3);
    set(&mut b, 2, 3, 1, 3);
    let mv = find_best_move_strategy(&b, sz, 0, &[], 2, 0, None, BorderMode::Default, CapMode::Cap4);
    assert_eq!(mv, Some((2, 2)), "cap4 strategy should explode triple (3v3), got {:?}", mv);
}

#[test]
fn strategy_cap3_no_suicide() {
    let sz = 5;
    let mut b = mk_b(sz);
    set(&mut b, 2, 2, 0, 1);
    set(&mut b, 1, 1, 0, 2);
    set(&mut b, 4, 4, 1, 1);
    let mv = find_best_move_strategy(&b, sz, 0, &[], 2, 0, None, BorderMode::Default, CapMode::Cap3);
    assert_eq!(mv, Some((2, 2)), "cap3 strategy must upgrade 1->2, not suicide 2->3, got {:?}", mv);
}

#[test]
fn strategy_wrap_neighbors_loop() {
    let sz = 5;
    let mut b = mk_b(sz);
    set(&mut b, 0, 2, 0, 1);
    set(&mut b, 4, 2, 1, 2);
    let mv_wrap = find_best_move_strategy(&b, sz, 0, &[], 2, 0, None, BorderMode::Wrap, CapMode::Cap3);
    assert_eq!(mv_wrap, Some((0, 2)), "wrap: expected (0,2), got {:?}", mv_wrap);
    let mv_def = find_best_move_strategy(&b, sz, 0, &[], 2, 0, None, BorderMode::Default, CapMode::Cap3);
    assert_eq!(mv_def, Some((0, 2)), "default: expected (0,2), got {:?}", mv_def);
}

#[test]
fn strategy_wrap_detects_wrapped_threat() {
    let sz = 5;
    let mut b = mk_b(sz);
    set(&mut b, 0, 2, 0, 2);
    set(&mut b, 4, 2, 1, 2);
    let mv = find_best_move_strategy(&b, sz, 0, &[], 2, 0, None, BorderMode::Wrap, CapMode::Cap3);
    assert_eq!(mv, Some((0, 2)), "wrap: wrapped adjacency should trigger explosion, got {:?}", mv);
}

#[test]
fn pvs_cap5_can_explode() {
    let sz = 5;
    let mut b = mk_b(sz);
    set(&mut b, 2, 2, 0, 4);
    set(&mut b, 2, 3, 1, 4);
    let mv = find_best_move_pvs(&b, sz, 0, 2, &[], 2, 0, true, BorderMode::Default, CapMode::Cap5, 0, &FlatModel);
    assert_eq!(mv, Some((2, 2)), "cap5 PVS should pick explosive move, got {:?}", mv);
}

#[test]
fn alphabeta_cap5_can_explode() {
    let sz = 5;
    let mut b = mk_b(sz);
    set(&mut b, 2, 2, 0, 4);
    set(&mut b, 2, 3, 1, 4);
    let mv = find_best_move(&b, sz, 0, 2, &[], 2, 0, None, true, BorderMode::Default, CapMode::Cap5, 0, &FlatModel);
    assert_eq!(mv, Some((2, 2)), "cap5 alphabeta should pick explosive move, got {:?}", mv);
}

#[test]
fn bench_spread_starts_valid() {
    for &(sz, n) in &[(7usize, 4usize), (9, 6), (11, 6), (5, 2)] {
        let pos = spread_starts(sz, &start_candidates(sz, n));
        assert_eq!(pos.len(), n, "{sz}×{sz} {n} 人首子数量");
        for &(x, y) in &pos {
            assert!(x < sz && y < sz, "首子在界内");
        }
        for i in 0..n {
            for j in (i + 1)..n {
                let d = pos[i].0.abs_diff(pos[j].0).max(pos[i].1.abs_diff(pos[j].1));
                assert!(d >= 3, "{sz}×{sz}: 首子 ({:?}) 与 ({:?}) 距离 {d} < 3", pos[i], pos[j]);
            }
        }
    }
}
