use chain_chess_lib::mcts::{mcts_playout, mcts_root, untried_moves, MctsRoot, PlayoutEnd, XorShift};
use chain_chess_lib::search::play_move;
use chain_chess_lib::{BorderMode, CapMode, Cell, GameBoard};

fn empty(sz: usize) -> GameBoard {
    vec![vec![Cell { owner: None, count: 0, th: None }; sz]; sz]
}

fn put(b: &mut GameBoard, x: usize, y: usize, owner: usize, count: u8) {
    b[x][y] = Cell { owner: Some(owner), count, th: None };
}

#[test]
fn xorshift_first_draws() {
    let mut g = XorShift::seed(1);
    assert_eq!(g.next_u64(), 1082269761);
    assert_eq!(g.next_u64(), 1152992998833853505);
    assert_eq!(g.next_u64(), 11177516664432764457);
}

#[test]
fn xorshift_seed_zero_starts_from_one() {
    let mut a = XorShift::seed(0);
    let mut b = XorShift::seed(1);
    for _ in 0..5 {
        assert_eq!(a.next_u64(), b.next_u64());
    }
}

#[test]
fn next_usize_without_choice_does_not_draw() {
    let mut a = XorShift::seed(7);
    let mut b = XorShift::seed(7);
    assert_eq!(a.next_usize(1), 0);
    assert_eq!(a.next_usize(0), 0);
    assert_eq!(a.next_u64(), b.next_u64());
}

#[test]
fn next_usize_is_the_draw_modulo_range() {
    let mut a = XorShift::seed(1);
    assert_eq!(a.next_usize(10), (1082269761u64 % 10) as usize);
    for r in 2..50 {
        assert!(a.next_usize(r) < r);
    }
}

#[test]
fn play_move_adds_a_piece_and_passes_the_turn() {
    let mut b = empty(5);
    put(&mut b, 0, 0, 0, 0);
    put(&mut b, 4, 4, 1, 0);
    let mut elim: Vec<usize> = Vec::new();
    let next = play_move(&mut b, 5, (0, 0), 0, 2, &mut elim, BorderMode::Default, CapMode::Cap4);
    assert_eq!(b[0][0], Cell { owner: Some(0), count: 1, th: None });
    assert_eq!(next, 1);
    assert!(elim.is_empty());
}

#[test]
fn untried_moves_skip_the_tried_ones() {
    let mut b = empty(5);
    put(&mut b, 0, 0, 0, 0);
    put(&mut b, 2, 2, 0, 1);
    put(&mut b, 4, 1, 0, 2);
    put(&mut b, 4, 4, 1, 0);
    let r = untried_moves(&b, 5, 0, BorderMode::Default, CapMode::Cap4, &vec![(2, 2)]);
    assert_eq!(r, vec![(0, 0), (4, 1)]);
    let all = untried_moves(&b, 5, 0, BorderMode::Default, CapMode::Cap4, &vec![]);
    assert_eq!(all, vec![(0, 0), (2, 2), (4, 1)]);
}

#[test]
fn playout_with_one_player_left_is_decided_at_once() {
    let mut b = empty(4);
    put(&mut b, 1, 1, 0, 2);
    let mut g = XorShift::seed(3);
    let end = mcts_playout(&b, 4, 0, &[], 2, 0, &mut g, BorderMode::Default, CapMode::Cap4);
    assert_eq!(end, PlayoutEnd::Decided(true));
    let end = mcts_playout(&b, 4, 1, &[], 2, 1, &mut g, BorderMode::Default, CapMode::Cap4);
    assert_eq!(end, PlayoutEnd::Decided(false));
    let mut fresh = XorShift::seed(3);
    assert_eq!(g.next_u64(), fresh.next_u64());
}

#[test]
fn playout_is_fixed_by_the_seed() {
    let mut b = empty(7);
    put(&mut b, 1, 1, 0, 1);
    put(&mut b, 1, 2, 0, 2);
    put(&mut b, 5, 5, 1, 1);
    put(&mut b, 5, 4, 1, 2);
    let mut g1 = XorShift::seed(99);
    let mut g2 = XorShift::seed(99);
    let a = mcts_playout(&b, 7, 0, &[], 2, 0, &mut g1, BorderMode::Default, CapMode::Cap4);
    let c = mcts_playout(&b, 7, 0, &[], 2, 0, &mut g2, BorderMode::Default, CapMode::Cap4);
    assert_eq!(a, c);
    assert_eq!(g1.next_u64(), g2.next_u64());
    if let PlayoutEnd::Points(mine, theirs) = a {
        assert!(mine >= 0 && theirs >= 0 && mine + theirs <= 49 * 5);
    }
}

#[test]
fn mcts_root_without_choice_needs_no_search() {
    let b = empty(5);
    match mcts_root(&b, 5, 0, 400, BorderMode::Default, CapMode::Cap4) {
        MctsRoot::Done(m) => assert_eq!(m, Some((2, 2))),
        MctsRoot::Search { .. } => panic!("a first move needs no search"),
    }
    let mut b = empty(5);
    put(&mut b, 3, 3, 0, 1);
    put(&mut b, 0, 0, 1, 1);
    match mcts_root(&b, 5, 0, 400, BorderMode::Default, CapMode::Cap4) {
        MctsRoot::Done(m) => assert_eq!(m, Some((3, 3))),
        MctsRoot::Search { .. } => panic!("the only move needs no search"),
    }
}

#[test]
fn mcts_root_shares_the_iterations_among_the_candidates() {
    let mut b = empty(5);
    put(&mut b, 0, 0, 0, 0);
    put(&mut b, 2, 2, 0, 1);
    put(&mut b, 4, 1, 0, 2);
    put(&mut b, 4, 4, 1, 0);
    match mcts_root(&b, 5, 0, 400, BorderMode::Default, CapMode::Cap4) {
        MctsRoot::Done(_) => panic!("three moves are searched"),
        MctsRoot::Search { candidates, iterations, max_nodes } => {
            let mut c = candidates.clone();
            c.sort();
            assert_eq!(c, vec![(0, 0), (2, 2), (4, 1)]);
            assert_eq!(iterations, 133);
            assert_eq!(max_nodes, 666);
        }
    }
    match mcts_root(&b, 5, 0, 60, BorderMode::Default, CapMode::Cap4) {
        MctsRoot::Done(_) => panic!("three moves are searched"),
        MctsRoot::Search { iterations, .. } => assert_eq!(iterations, 50),
    }
}

#[test]
fn mcts_root_keeps_fifteen_candidates() {
    let mut b = empty(6);
    for x in 0..6 {
        for y in 0..3 {
            put(&mut b, x, y, 0, 0);
        }
    }
    put(&mut b, 5, 5, 1, 0);
    match mcts_root(&b, 6, 0, 800, BorderMode::Default, CapMode::Cap4) {
        MctsRoot::Done(_) => panic!("eighteen moves are searched"),
        MctsRoot::Search { candidates, iterations, max_nodes } => {
            assert_eq!(candidates.len(), 15);
            assert_eq!(iterations, 53);
            assert_eq!(max_nodes, 133);
        }
    }
}

#[test]
fn search_budget_and_growth_rule() {
    assert_eq!(chain_chess_lib::mcts::mcts_iterations(0), 400);
    assert_eq!(chain_chess_lib::mcts::mcts_iterations(1), 400);
    assert_eq!(chain_chess_lib::mcts::mcts_iterations(3), 1200);
    assert!(!chain_chess_lib::mcts::mcts_expands(0, 10));
    assert!(!chain_chess_lib::mcts::mcts_expands(4, 2));
    assert!(chain_chess_lib::mcts::mcts_expands(4, 3));
}
