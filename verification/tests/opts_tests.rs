use chain_chess_lib::opts::parse_opts;
use chain_chess_lib::{BorderMode, CapMode};

fn args(v: &[&str]) -> Vec<String> {
    v.iter().map(|s| s.to_string()).collect()
}

#[test]
fn options_default_without_arguments() {
    let (o, unknown) = parse_opts(&args(&[]));
    assert_eq!(o.games, 6);
    assert_eq!(o.size, 7);
    assert_eq!(o.depth, 2);
    assert_eq!(o.mcts_depth, 1);
    assert_eq!(o.caps, vec![CapMode::Cap3, CapMode::Cap4, CapMode::Cap5]);
    assert_eq!(o.borders, vec![BorderMode::Default, BorderMode::Wrap, BorderMode::Bounce, BorderMode::Degrade]);
    assert_eq!(o.algs, vec!["strategy", "alphabeta", "pvs", "mcts"]);
    assert!(o.use_ml);
    assert_eq!(o.seed, 42);
    assert!(unknown.is_empty());
}

#[test]
fn options_read_each_flag() {
    let (o, unknown) = parse_opts(&args(&[
        "--games", "10", "--size", "9", "--depth", "3", "--mcts-depth", "2", "--caps", "5, random", "--borders",
        "wrap", "--algs", "pvs,,mcts", "--no-ml", "--seed", "+7",
    ]));
    assert_eq!(o.games, 10);
    assert_eq!(o.size, 9);
    assert_eq!(o.depth, 3);
    assert_eq!(o.mcts_depth, 2);
    assert_eq!(o.caps, vec![CapMode::Cap5, CapMode::Random]);
    assert_eq!(o.borders, vec![BorderMode::Wrap]);
    assert_eq!(o.algs, vec!["pvs", "mcts"]);
    assert!(!o.use_ml);
    assert_eq!(o.seed, 7);
    assert!(unknown.is_empty());
}

#[test]
fn options_fall_back_on_bad_numbers() {
    let (o, _) = parse_opts(&args(&["--games", "4294967296", "--size", "x7", "--depth", "-1", "--seed", "+"]));
    assert_eq!(o.games, 6);
    assert_eq!(o.size, 7);
    assert_eq!(o.depth, 2);
    assert_eq!(o.seed, 42);
    let (o, _) = parse_opts(&args(&["--games", "4294967295", "--seed", "18446744073709551615"]));
    assert_eq!(o.games, 4294967295);
    assert_eq!(o.seed, u64::MAX);
    let (o, _) = parse_opts(&args(&["--seed", "18446744073709551616"]));
    assert_eq!(o.seed, 42);
}

#[test]
fn options_report_unknown_arguments_and_keep_going() {
    let (o, unknown) = parse_opts(&args(&["--fast", "--ml", "extra", "--games", "8"]));
    assert_eq!(unknown, vec!["--fast", "extra"]);
    assert!(o.use_ml);
    assert_eq!(o.games, 8);
}

#[test]
fn options_take_the_next_argument_as_value() {
    let (o, unknown) = parse_opts(&args(&["--caps", "--no-ml"]));
    assert!(o.caps.is_empty());
    assert!(o.use_ml);
    assert!(unknown.is_empty());
    let (o, _) = parse_opts(&args(&["--games"]));
    assert_eq!(o.games, 6);
    let (o, _) = parse_opts(&args(&["--borders"]));
    assert!(o.borders.is_empty());
}
