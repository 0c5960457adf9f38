//! The integer side of the Monte Carlo search: its generator, the moves a node has
//! not tried, a random playout and the plan at the root. The statistics that rank
//! the candidates are floating point and are kept by the caller.
use crate::alphabeta::{has_choice, lemma_move_list_facts, root_pick};
use crate::board::{bview, get_moves, has_pieces, is_move_list, legal_move, owns_any, wf, BorderMode, CapMode, Cell};
use crate::order::{is_ordered_moves, order_moves};
use crate::chain::copy_board;
use crate::search::{first_move_center, in_tier, next_live, next_live_player, out_of, play_move, ply, tier_empty};
use crate::sim::{alive_players, alive_seq};
use vstd::prelude::*;

verus! {

/// One step of the xorshift generator: shifts of 13, 7 and 17.
pub open spec fn xorshift_next(s: u64) -> u64 {
    let a = s ^ (s << 13u64);
    let b = a ^ (a >> 7u64);
    b ^ (b << 17u64)
}

/// A small xorshift generator.
pub struct XorShift(u64);

impl XorShift {
    /// The current state.
    pub closed spec fn state(&self) -> u64 {
        self.0
    }

    /// A generator started from `seed` (from 1 when the seed is 0).
    pub fn seed(seed: u64) -> (r: XorShift)
        ensures
            r.state() == (if seed == 0 { 1 } else { seed }),
    {
        XorShift(if seed == 0 { 1 } else { seed })
    }

    /// The next number; it becomes the state.
    pub fn next_u64(&mut self) -> (r: u64)
        ensures
            r == xorshift_next(old(self).state()),
            final(self).state() == r,
    {
        let mut x = self.0;
        x = x ^ (x << 13u64);
        x = x ^ (x >> 7u64);
        x = x ^ (x << 17u64);
        self.0 = x;
        x
    }

    /// A number below `range` from the next draw; 0, without a draw, when `range` is
    /// at most 1.
    pub fn next_usize(&mut self, range: usize) -> (r: usize)
        ensures
            r == pick_index(old(self).state(), range),
            final(self).state() == pick_state(old(self).state(), range),
            range >= 1 ==> r < range,
    {
        if range <= 1 {
            return 0;
        }
        (self.next_u64() as usize) % range
    }
}

/// The index that a generator in state `s` picks below `n`.
pub open spec fn pick_index(s: u64, n: usize) -> usize {
    if n <= 1 { 0 } else { ((xorshift_next(s) as usize) % n) as usize }
}

/// The state of the generator after that pick.
pub open spec fn pick_state(s: u64, n: usize) -> u64 {
    if n <= 1 { s } else { xorshift_next(s) }
}

/// Whether `m` is listed in `tried`.
fn has_move(tried: &Vec<(usize, usize)>, m: (usize, usize)) -> (r: bool)
    ensures
        r == tried@.contains(m),
{
    let mut k: usize = 0;
    while k < tried.len()
        invariant
            0 <= k <= tried@.len(),
            forall|t: int| 0 <= t < k ==> tried@[t] != m,
        decreases tried@.len() - k,
    {
        let t = tried[k];
        if t.0 == m.0 && t.1 == m.1 {
            return true;
        }
        k += 1;
    }
    false
}

/// The moves not listed in `tried`.
pub open spec fn not_tried(tried: Seq<(usize, usize)>) -> spec_fn((usize, usize)) -> bool {
    |m: (usize, usize)| !tried.contains(m)
}

/// The legal moves of `player` that are not listed in `tried`, in row-major order.
pub fn untried_moves(
    board: &Vec<Vec<Cell>>,
    sz: usize,
    player: usize,
    border_mode: BorderMode,
    cap_mode: CapMode,
    tried: &Vec<(usize, usize)>,
) -> (r: Vec<(usize, usize)>)
    requires
        wf(bview(board), sz as int),
    ensures
        exists|mv: Seq<(usize, usize)>|
            #[trigger] is_move_list(bview(board), sz, player, border_mode, cap_mode, mv) && r@ == mv.filter(not_tried(tried@)),
{
    let all = get_moves(board, sz, player, None, border_mode, cap_mode);
    let ghost mv = all@;
    let ghost pred = not_tried(tried@);
    let mut r: Vec<(usize, usize)> = Vec::new();
    let mut k: usize = 0;
    while k < all.len()
        invariant
            0 <= k <= mv.len(),
            mv == all@,
            pred == not_tried(tried@),
            r@ == mv.take(k as int).filter(pred),
        decreases mv.len() - k,
    {
        let m = all[k];
        proof {
            assert(mv.take(k + 1) =~= mv.take(k as int).push(m));
            mv.take(k as int).lemma_filter_push(m, pred);
        }
        if !has_move(tried, m) {
            r.push(m);
        }
        k += 1;
    }
    proof {
        assert(mv.take(mv.len() as int) =~= mv);
    }
    r
}

/// How a playout ends for the searching player.
#[derive(Clone, Copy, Debug, PartialEq, Eq, Structural)]
pub enum PlayoutEnd {
    /// At most one player is left in: `true` when it is the searching player.
    Decided(bool),
    /// The round limit came first: the points of the searching player and of the
    /// others, each square counting its pieces plus one.
    Points(i32, i32),
}

/// The rounds of a playout.
pub const PLAYOUT_ROUNDS: usize = 40;

/// The points of `ai` and of the other players on the first `n` squares of a row.
pub open spec fn row_points(row: Seq<Cell>, ai: usize, n: nat) -> (int, int)
    decreases n,
{
    if n == 0 {
        (0, 0)
    } else {
        let t = row_points(row, ai, (n - 1) as nat);
        let c = row[n - 1];
        match c.owner {
            Some(p) => if p == ai { (t.0 + c.count + 1, t.1) } else { (t.0, t.1 + c.count + 1) },
            None => t,
        }
    }
}

/// The points of `ai` and of the other players on the first `n` rows.
pub open spec fn board_points(b: Seq<Seq<Cell>>, ai: usize, n: nat) -> (int, int)
    decreases n,
{
    if n == 0 {
        (0, 0)
    } else {
        let t = board_points(b, ai, (n - 1) as nat);
        let r = row_points(b[n - 1], ai, b[n - 1].len());
        (t.0 + r.0, t.1 + r.1)
    }
}

/// How a playout that stops on `b` ends: decided when one player is left in, by the
/// points otherwise.
pub open spec fn final_end(b: Seq<Seq<Cell>>, alive: Seq<usize>, ai: usize, end: PlayoutEnd) -> bool {
    if alive.len() == 1 {
        end == PlayoutEnd::Decided(alive[0] == ai)
    } else {
        end matches PlayoutEnd::Points(mine, theirs) && mine == board_points(b, ai, b.len()).0
            && theirs == board_points(b, ai, b.len()).1
    }
}

/// One round of a playout, given the legal moves `mv` of `cur` in row-major order:
/// without a move the turn passes on; otherwise the generator picks one of the moves
/// and it is played.
pub open spec fn round_with(
    mv: Seq<(usize, usize)>,
    b: Seq<Seq<Cell>>,
    e: Seq<usize>,
    cur: usize,
    s: u64,
    b2: Seq<Seq<Cell>>,
    e2: Seq<usize>,
    cur2: usize,
    s2: u64,
    sz: usize,
    max_players: usize,
    bm: BorderMode,
    cm: CapMode,
) -> bool {
    if mv.len() == 0 {
        &&& b2 == b
        &&& e2 == e
        &&& s2 == s
        &&& cur2 == next_live(b, out_of(e), cur, max_players)
    } else {
        &&& s2 == pick_state(s, mv.len() as usize)
        &&& ply(b, e, cur, mv[pick_index(s, mv.len() as usize) as int], b2, e2, cur2, sz, max_players, bm, cm)
    }
}

/// One round of a playout from `(b, e, cur)` with the generator in state `s`.
pub open spec fn playout_round(
    b: Seq<Seq<Cell>>,
    e: Seq<usize>,
    cur: usize,
    s: u64,
    b2: Seq<Seq<Cell>>,
    e2: Seq<usize>,
    cur2: usize,
    s2: u64,
    sz: usize,
    max_players: usize,
    bm: BorderMode,
    cm: CapMode,
) -> bool {
    exists|mv: Seq<(usize, usize)>|
        #[trigger] is_move_list(b, sz, cur, bm, cm, mv) && round_with(mv, b, e, cur, s, b2, e2, cur2, s2, sz, max_players, bm, cm)
}

/// A playout from `(b, e, cur)` with the generator in state `s` and `n` rounds left
/// ends in `end` with the generator in state `fs`: it stops as soon as at most one
/// player is left in, and after the last round.
pub open spec fn playout_run(
    b: Seq<Seq<Cell>>,
    e: Seq<usize>,
    cur: usize,
    s: u64,
    n: nat,
    ai: usize,
    sz: usize,
    max_players: usize,
    bm: BorderMode,
    cm: CapMode,
    end: PlayoutEnd,
    fs: u64,
) -> bool
    decreases n,
{
    let alive = alive_seq(b, e, max_players as nat);
    if n == 0 {
        fs == s && final_end(b, alive, ai, end)
    } else if alive.len() <= 1 {
        fs == s && end == PlayoutEnd::Decided(alive.len() == 1 && alive[0] == ai)
    } else {
        exists|b2: Seq<Seq<Cell>>, e2: Seq<usize>, cur2: usize, s2: u64|
            #[trigger] playout_round(b, e, cur, s, b2, e2, cur2, s2, sz, max_players, bm, cm)
                && playout_run(b2, e2, cur2, s2, (n - 1) as nat, ai, sz, max_players, bm, cm, end, fs)
    }
}

/// The points of `ai` and of the others on one row.
fn row_points_exec(row: &Vec<Cell>, ai: usize) -> (r: (i32, i32))
    requires
        row@.len() <= 256,
    ensures
        r.0 == row_points(row@, ai, row@.len()).0,
        r.1 == row_points(row@, ai, row@.len()).1,
        0 <= r.0,
        0 <= r.1,
        r.0 + r.1 <= 65536,
{
    let mut mine: i32 = 0;
    let mut theirs: i32 = 0;
    let mut j: usize = 0;
    while j < row.len()
        invariant
            0 <= j <= row@.len(),
            row@.len() <= 256,
            mine == row_points(row@, ai, j as nat).0,
            theirs == row_points(row@, ai, j as nat).1,
            0 <= mine,
            0 <= theirs,
            mine + theirs <= 256 * j,
        decreases row@.len() - j,
    {
        let c = row[j];
        match c.owner {
            Some(p) => {
                if p == ai {
                    mine = mine + c.count as i32 + 1;
                } else {
                    theirs = theirs + c.count as i32 + 1;
                }
            },
            None => {},
        }
        j += 1;
    }
    (mine, theirs)
}

/// The points of `ai` and of the others on the board.
fn board_points_exec(board: &Vec<Vec<Cell>>, sz: usize, ai: usize) -> (r: (i32, i32))
    requires
        wf(bview(board), sz as int),
        sz <= 256,
    ensures
        r.0 == board_points(bview(board), ai, sz as nat).0,
        r.1 == board_points(bview(board), ai, sz as nat).1,
{
    let ghost b = bview(board);
    let mut mine: i32 = 0;
    let mut theirs: i32 = 0;
    let mut i: usize = 0;
    while i < board.len()
        invariant
            b == bview(board),
            wf(b, sz as int),
            sz <= 256,
            0 <= i <= sz,
            mine == board_points(b, ai, i as nat).0,
            theirs == board_points(b, ai, i as nat).1,
            0 <= mine,
            0 <= theirs,
            mine + theirs <= 65536 * i,
        decreases sz - i,
    {
        assert(b[i as int] == board@[i as int]@);
        let (m, t) = row_points_exec(&board[i], ai);
        mine = mine + m;
        theirs = theirs + t;
        i += 1;
    }
    (mine, theirs)
}

/// A random playout of at most `PLAYOUT_ROUNDS` rounds from `start_player`'s turn:
/// each round the player to move plays a move that `rng` picks among its legal moves
/// (or passes without one), and the turn goes to the next player left in.
pub fn mcts_playout(
    board: &Vec<Vec<Cell>>,
    sz: usize,
    start_player: usize,
    eliminated: &[usize],
    max_players: usize,
    ai_player: usize,
    rng: &mut XorShift,
    border_mode: BorderMode,
    cap_mode: CapMode,
) -> (r: PlayoutEnd)
    requires
        wf(bview(board), sz as int),
        sz <= 256,
    ensures
        playout_run(
            bview(board),
            eliminated@,
            start_player,
            old(rng).state(),
            PLAYOUT_ROUNDS as nat,
            ai_player,
            sz,
            max_players,
            border_mode,
            cap_mode,
            r,
            final(rng).state(),
        ),
{
    let ghost b0 = bview(board);
    let ghost s0 = rng.state();
    let mut b = copy_board(board);
    let mut elim: Vec<usize> = Vec::new();
    let mut k: usize = 0;
    while k < eliminated.len()
        invariant
            0 <= k <= eliminated@.len(),
            elim@ == eliminated@.take(k as int),
        decreases eliminated@.len() - k,
    {
        elim.push(eliminated[k]);
        assert(elim@ =~= eliminated@.take(k + 1));
        k += 1;
    }
    assert(elim@ =~= eliminated@);
    let mut cur = start_player;
    let mut i: usize = 0;
    let ghost mut left: nat = PLAYOUT_ROUNDS as nat;
    let mut done: Option<PlayoutEnd> = None;
    while i < PLAYOUT_ROUNDS && done.is_none()
        invariant
            wf(bview(&b), sz as int),
            sz <= 256,
            0 <= i <= PLAYOUT_ROUNDS,
            done is None ==> left == PLAYOUT_ROUNDS - i,
            done is None ==> forall|end: PlayoutEnd, fs: u64|
                #[trigger] playout_run(bview(&b), elim@, cur, rng.state(), left, ai_player, sz, max_players, border_mode, cap_mode, end, fs)
                    ==> playout_run(b0, eliminated@, start_player, s0, PLAYOUT_ROUNDS as nat, ai_player, sz, max_players, border_mode, cap_mode, end, fs),
            done matches Some(r) ==> playout_run(b0, eliminated@, start_player, s0, PLAYOUT_ROUNDS as nat, ai_player, sz, max_players, border_mode, cap_mode, r, rng.state()),
        decreases PLAYOUT_ROUNDS - i,
    {
        let alive = alive_players(&b, &elim, max_players);
        if alive.len() <= 1 {
            let r = PlayoutEnd::Decided(alive.len() == 1 && alive[0] == ai_player);
            assert(playout_run(bview(&b), elim@, cur, rng.state(), left, ai_player, sz, max_players, border_mode, cap_mode, r, rng.state()));
            done = Some(r);
        } else {
            let ghost pb = bview(&b);
            let ghost pe = elim@;
            let ghost pc = cur;
            let ghost ps = rng.state();
            let moves = get_moves(&b, sz, cur, None, border_mode, cap_mode);
            if moves.len() == 0 {
                cur = next_live_player(&b, sz, cur, &elim, max_players);
                proof {
                    assert(out_of(elim@) =~= (|p: usize| elim@.contains(p)));
                    assert(round_with(moves@, pb, pe, pc, ps, bview(&b), elim@, cur, rng.state(), sz, max_players, border_mode, cap_mode));
                }
            } else {
                let idx = rng.next_usize(moves.len());
                let m = moves[idx];
                assert(legal_move(pb, sz, pc, border_mode, cap_mode, moves@[idx as int]));
                cur = play_move(&mut b, sz, m, cur, max_players, &mut elim, border_mode, cap_mode);
                assert(round_with(moves@, pb, pe, pc, ps, bview(&b), elim@, cur, rng.state(), sz, max_players, border_mode, cap_mode));
            }
            proof {
                assert(playout_round(pb, pe, pc, ps, bview(&b), elim@, cur, rng.state(), sz, max_players, border_mode, cap_mode));
                assert forall|end: PlayoutEnd, fs: u64|
                    #[trigger] playout_run(bview(&b), elim@, cur, rng.state(), (left - 1) as nat, ai_player, sz, max_players, border_mode, cap_mode, end, fs)
                    implies playout_run(pb, pe, pc, ps, left, ai_player, sz, max_players, border_mode, cap_mode, end, fs) by {
                }
                left = (left - 1) as nat;
            }
        }
        i += 1;
    }
    match done {
        Some(r) => r,
        None => {
            let alive = alive_players(&b, &elim, max_players);
            let r = if alive.len() == 1 {
                PlayoutEnd::Decided(alive[0] == ai_player)
            } else {
                let (mine, theirs) = board_points_exec(&b, sz, ai_player);
                PlayoutEnd::Points(mine, theirs)
            };
            assert(playout_run(bview(&b), elim@, cur, rng.state(), left, ai_player, sz, max_players, border_mode, cap_mode, r, rng.state()));
            r
        },
    }
}

/// The node budget of the trees of one search, shared among the candidates.
pub const MCTS_TREE_MAX_NODES: usize = 2000;

/// Iterations of a Monte Carlo search per ply of depth.
pub const MCTS_ITER_PER_DEPTH: usize = 400;

/// The iterations of a Monte Carlo search to `depth` plies: 400 per ply, at least
/// one ply.
pub fn mcts_iterations(depth: usize) -> (r: usize)
    requires
        depth * 400 <= usize::MAX,
    ensures
        r == (if depth >= 1 { depth as int } else { 1 }) * 400,
{
    let d = if depth >= 1 { depth } else { 1 };
    d * MCTS_ITER_PER_DEPTH
}

/// Whether a search grows a node by one of its untried moves instead of passing
/// through it: once the node has been visited three times and a move is left.
pub fn mcts_expands(untried: usize, visits: u32) -> (r: bool)
    ensures
        r == (untried > 0 && visits >= 3),
{
    untried > 0 && visits >= 3
}

/// The most candidates that the root searches.
pub const MCTS_MAX_BRANCHES: usize = 15;

/// What the Monte Carlo search does at the root.
pub enum MctsRoot {
    /// The answer needs no search.
    Done(Option<(usize, usize)>),
    /// Search a tree below each candidate with `iterations` iterations and at most
    /// `max_nodes` nodes, and answer with the best.
    Search { candidates: Vec<(usize, usize)>, iterations: usize, max_nodes: usize },
}

/// The plan of the root: no search without a choice or for a first move; otherwise
/// the best-ordered moves, at most fifteen, each with its share of the iterations
/// (at least 50) and of the node budget.
pub open spec fn root_plan(
    b: Seq<Seq<Cell>>,
    sz: usize,
    player: usize,
    bm: BorderMode,
    cm: CapMode,
    iterations: usize,
    r: MctsRoot,
) -> bool {
    match r {
        MctsRoot::Done(m) => {
            &&& !(has_choice(b, sz, player, bm, cm) && owns_any(b, player))
            &&& root_pick(b, sz, player, bm, cm, MCTS_MAX_BRANCHES as int, m)
        },
        MctsRoot::Search { candidates, iterations: it, max_nodes } => {
            let n = candidates@.len();
            &&& has_choice(b, sz, player, bm, cm)
            &&& owns_any(b, player)
            &&& exists|mv: Seq<(usize, usize)>, ord: Seq<(usize, usize)>|
                is_move_list(b, sz, player, bm, cm, mv) && #[trigger] is_ordered_moves(b, sz, player, bm, cm, mv, ord)
                    && candidates@ == ord.take(if ord.len() < MCTS_MAX_BRANCHES { ord.len() as int } else { MCTS_MAX_BRANCHES as int })
            &&& 2 <= n <= MCTS_MAX_BRANCHES
            &&& it == (if iterations / (n as usize) < 50 { 50 } else { iterations / (n as usize) })
            &&& max_nodes == MCTS_TREE_MAX_NODES / (n as usize)
        },
    }
}

/// Plans the root of a Monte Carlo search for `ai_player` with `iterations` iterations.
pub fn mcts_root(
    board: &Vec<Vec<Cell>>,
    sz: usize,
    ai_player: usize,
    iterations: usize,
    border_mode: BorderMode,
    cap_mode: CapMode,
) -> (r: MctsRoot)
    requires
        wf(bview(board), sz as int),
        1 <= sz <= 256,
    ensures
        root_plan(bview(board), sz, ai_player, border_mode, cap_mode, iterations, r),
{
    let ghost b = bview(board);
    let all_moves = get_moves(board, sz, ai_player, None, border_mode, cap_mode);
    let ghost mv = all_moves@;
    proof {
        lemma_move_list_facts(b, sz, ai_player, border_mode, cap_mode, mv);
    }
    if all_moves.len() == 0 {
        return MctsRoot::Done(None);
    }
    if all_moves.len() == 1 {
        return MctsRoot::Done(Some(all_moves[0]));
    }
    if !has_pieces(board, ai_player) {
        let r = first_move_center(board, sz);
        proof {
            let m0 = mv[0];
            assert(legal_move(b, sz, ai_player, border_mode, cap_mode, m0));
            assert(in_tier(b, sz, 1, m0));
            assert(!tier_empty(b, sz, 1));
        }
        return MctsRoot::Done(r);
    }
    proof {
        assert forall|k: int| 0 <= k < mv.len() implies (#[trigger] mv[k]).0 < sz && mv[k].1 < sz by {
            assert(legal_move(b, sz, ai_player, border_mode, cap_mode, mv[k]));
        }
    }
    let ordered = order_moves(all_moves, board, sz, ai_player, border_mode, cap_mode);
    let ghost ord = ordered@;
    let branches: usize = if ordered.len() < MCTS_MAX_BRANCHES { ordered.len() } else { MCTS_MAX_BRANCHES };
    let mut candidates: Vec<(usize, usize)> = Vec::new();
    let mut k: usize = 0;
    while k < branches
        invariant
            ord == ordered@,
            branches <= ord.len(),
            0 <= k <= branches,
            candidates@ == ord.take(k as int),
        decreases branches - k,
    {
        candidates.push(ordered[k]);
        assert(candidates@ =~= ord.take(k + 1));
        k += 1;
    }
    let share = iterations / branches;
    let iters = if share < 50 { 50 } else { share };
    let r = MctsRoot::Search { candidates, iterations: iters, max_nodes: MCTS_TREE_MAX_NODES / branches };
    assert(is_move_list(b, sz, ai_player, border_mode, cap_mode, mv) && is_ordered_moves(b, sz, ai_player, border_mode, cap_mode, mv, ord));
    r
}

} // verus!
