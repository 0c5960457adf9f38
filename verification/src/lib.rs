pub mod alphabeta;
pub mod board;
pub mod chain;
pub mod chain_laws;
pub mod eval;
pub mod mcts;
pub mod minimax;
pub mod opts;
pub mod order;
pub mod pvs;
pub mod qsearch;
pub mod records;
pub mod rng;
pub mod search;
pub mod setup;
pub mod selfplay;
pub mod sim;
mod sort;
pub mod strategy;
pub mod text;
pub mod version;

pub use alphabeta::{find_best_move, Grade};
pub use board::{cell_threshold, crit_level, get_moves, has_pieces, BorderMode, CapMode, Cell, GameBoard};
pub use chain::{max_players_for, process_click, process_click_with_killer, process_click_with_snapshots, MAX_CHAIN_STEPS};
pub use eval::{eval_board, eval_board_handcraft, eval_board_improved, hash_board, ml_blend, MlScore};
pub use pvs::find_best_move_pvs;
pub use search::first_move_center;
pub use selfplay::{SelfPlay, SelfPlayAction, StepRecord};
pub use setup::{build_board, spread_starts, start_board};
pub use sim::{
    add_new_players, alive_players, next_player_in, not_out_players, process_move, ChainStatsPlayer, MaxChain, PlayerAiConfig, PlayerSnapshot, ProcessMoveResult, SimAction,
    SimulateResult, Simulation, TurnHistory,
};
pub use strategy::find_best_move_strategy;
pub use text::{parse_algs, parse_borders, parse_caps};
pub use version::{update_available, update_decision};
pub use records::{history_date, ids_absent};
