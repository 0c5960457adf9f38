use chain_chess_lib::{
    find_best_move, find_best_move_strategy, has_pieces, process_click, process_click_with_killer, BorderMode, CapMode,
    Cell, GameBoard, MlScore, ProcessMoveResult,
};

/// A stand-in for the learned model; the searches below do not consult it.
struct NoModel;

impl MlScore for NoModel {
    fn ml_score(&self, _board: &Vec<Vec<Cell>>, _player: usize, _bm: BorderMode, _cm: CapMode) -> i32 {
        0
    }
}

#[test]
fn test_find_best_move_finds_valid_move() {
    let mut b: GameBoard = vec![vec![Cell { owner: None, count: 0, th: None }; 7]; 7];
    b[3][3] = Cell { owner: Some(0), count: 1, th: None };
    let result = find_best_move(&b, 7, 0, 1, &[], 2, 10, None, false, BorderMode::Default, CapMode::Cap4, 0, &NoModel);
    assert!(result.is_some(), "AI should find a valid move at depth=1");
    let (x, y) = result.unwrap();
    assert!(x < 7 && y < 7);
    assert_eq!(b[x][y].owner, Some(0), "AI should pick its own piece");
}

#[test]
fn test_find_best_move_strategy_returns_something() {
    let mut b: GameBoard = vec![vec![Cell { owner: None, count: 0, th: None }; 5]; 5];
    b[2][2] = Cell { owner: Some(0), count: 3, th: None };
    let result = find_best_move_strategy(&b, 5, 0, &[], 2, 10, None, BorderMode::Default, CapMode::Cap4);
    assert!(result.is_some(), "Strategy AI should find a move");
    let (x, y) = result.unwrap();
    assert!(x < 5 && y < 5);
}

#[test]
fn test_cell_default_state() {
    let cell = Cell { owner: None, count: 0, th: None };
    assert_eq!(cell.owner, None);
    assert_eq!(cell.count, 0);
}

#[test]
fn test_cell_occupied() {
    let cell = Cell { owner: Some(0), count: 3, th: None };
    assert_eq!(cell.owner, Some(0));
    assert_eq!(cell.count, 3);
}

#[test]
fn test_process_move_result_defaults() {
    let b: GameBoard = vec![vec![Cell { owner: None, count: 0, th: None }; 5]; 5];
    let result = ProcessMoveResult {
        board: b.clone(),
        eliminated: vec![],
        killed_by: vec![],
        chain_count: 0,
        game_over: false,
        winner: None,
        steps: vec![],
        exploded: vec![],
    };
    assert!(!result.game_over);
    assert!(result.winner.is_none());
    assert_eq!(result.chain_count, 0);
    assert!(result.eliminated.is_empty());
    assert_eq!(result.board.len(), 5);
}

#[test]
fn test_process_click_with_killer_identifies_eliminator() {
    let mut b: GameBoard = vec![vec![Cell { owner: None, count: 0, th: None }; 3]; 3];
    b[1][1] = Cell { owner: Some(1), count: 1, th: None };
    b[2][1] = Cell { owner: Some(0), count: 3, th: None };
    let (eliminated, _chain, killed_by) = process_click_with_killer(&mut b, 3, 2, 1, 0, 2, BorderMode::Default, CapMode::Cap4, None);
    assert_eq!(eliminated, vec![1], "player 1 should be eliminated");
    assert_eq!(killed_by, vec![(1, 0)], "player 0 should be the killer of player 1");
    assert_eq!(b[1][1].owner, Some(0), "cell should now belong to player 0");
}

#[test]
fn test_process_click_wrapper_still_works() {
    let mut b: GameBoard = vec![vec![Cell { owner: None, count: 0, th: None }; 3]; 3];
    b[1][1] = Cell { owner: Some(1), count: 1, th: None };
    b[2][1] = Cell { owner: Some(0), count: 3, th: None };
    let (eliminated, chain) = process_click(&mut b, 3, 2, 1, 0, 2, BorderMode::Default, CapMode::Cap4, None);
    assert_eq!(eliminated, vec![1]);
    assert!(chain >= 1);
}

#[test]
fn test_chain_reaction_no_deadlock_degrade() {
    let sz = 5usize;
    let setup: [((usize, usize), usize, u8); 22] = [
        ((0, 0), 0, 1), ((0, 2), 0, 2), ((0, 3), 0, 2), ((0, 4), 0, 1),
        ((1, 0), 0, 2), ((1, 1), 0, 1), ((1, 2), 0, 3), ((1, 4), 0, 1),
        ((2, 0), 0, 2), ((2, 1), 0, 2), ((2, 2), 0, 1), ((2, 3), 0, 2), ((2, 4), 0, 2),
        ((3, 0), 0, 2), ((3, 1), 0, 3), ((3, 2), 0, 2), ((3, 3), 0, 1), ((3, 4), 0, 2),
        ((4, 1), 0, 2), ((4, 2), 0, 2), ((4, 3), 0, 2), ((4, 4), 1, 1),
    ];
    let mut b: GameBoard = vec![vec![Cell { owner: None, count: 0, th: None }; sz]; sz];
    for ((i, j), o, c) in setup {
        b[i][j] = Cell { owner: Some(o), count: c, th: None };
    }
    let (elim, chain) = process_click(&mut b, sz, 4, 4, 1, 3, BorderMode::Degrade, CapMode::Cap4, None);
    assert!(chain < 1_000_000, "连锁步数异常（被防御截断仍应在合理上限内）: chain={}", chain);
    let _ = elim;
    assert!(has_pieces(&b, 1), "player 1 应仍有棋子（或已被淘汰，均不算死锁）");
}

#[test]
fn test_chain_reaction_wrap_no_deadlock() {
    let sz = 7usize;
    let mut b: GameBoard = vec![vec![Cell { owner: None, count: 0, th: None }; sz]; sz];
    for i in 0..sz {
        b[i][0] = Cell { owner: Some(0), count: 3, th: None };
        b[i][sz - 1] = Cell { owner: Some(0), count: 3, th: None };
        b[0][i] = Cell { owner: Some(1), count: 3, th: None };
        b[sz - 1][i] = Cell { owner: Some(1), count: 3, th: None };
    }
    let (elim, chain) = process_click(&mut b, sz, 3, 3, 0, 2, BorderMode::Wrap, CapMode::Cap4, None);
    assert!(chain < 1_000_000, "wrap 连锁步数异常: chain={}", chain);
    let _ = elim;
}

#[test]
fn test_killed_by_all_border_modes() {
    let modes = [
        ("default", BorderMode::Default),
        ("degrade", BorderMode::Degrade),
        ("wrap", BorderMode::Wrap),
        ("bounce", BorderMode::Bounce),
    ];
    for (name, m) in modes {
        let sz = 3usize;
        let mut b: GameBoard = vec![vec![Cell { owner: None, count: 0, th: None }; sz]; sz];
        b[1][1] = Cell { owner: Some(1), count: 1, th: None };
        b[2][1] = Cell { owner: Some(0), count: 3, th: None };
        let (eliminated, _chain, killed_by) = process_click_with_killer(&mut b, sz, 2, 1, 0, 2, m, CapMode::Cap4, None);
        assert_eq!(eliminated, vec![1], "[{}] player 1 应被淘汰", name);
        assert_eq!(killed_by, vec![(1, 0)], "[{}] 击败者应为玩家0", name);
        assert_eq!(b[1][1].owner, Some(0), "[{}] (1,1) 应归玩家0", name);
    }
}

#[test]
fn test_killed_by_degrade_corner() {
    let sz = 3usize;
    let mut b: GameBoard = vec![vec![Cell { owner: None, count: 0, th: None }; sz]; sz];
    b[0][1] = Cell { owner: Some(1), count: 1, th: None };
    b[0][0] = Cell { owner: Some(0), count: 1, th: None };
    let (eliminated, _chain, killed_by) = process_click_with_killer(&mut b, sz, 0, 0, 0, 2, BorderMode::Degrade, CapMode::Cap4, None);
    assert_eq!(eliminated, vec![1], "degrade 角上玩家1 应被淘汰");
    assert_eq!(killed_by, vec![(1, 0)], "degrade 击败者应为玩家0");
}
