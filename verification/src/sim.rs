use crate::board::{bview, has_pieces, owns_any, wf, BorderMode, CapMode, Cell};
use crate::chain::{
    click_ok, click_result, process_click_with_killer, process_click_with_snapshots, seeded_click, steps_view,
};
use crate::search::{contains_player, index_or_zero, position_or_zero};
use vstd::prelude::*;
use vstd::wrapping::u64_specs;

verus! {

/// Chain statistics of one player: chains set off, longest chain.
#[derive(Clone, Copy, Debug, PartialEq, Eq, Structural)]
pub struct ChainStatsPlayer {
    pub triggered: u32,
    pub max_chain: u32,
}

/// The longest chain of a game and who set it off.
#[derive(Clone, Copy, Debug, PartialEq, Eq, Structural)]
pub struct MaxChain {
    pub player: Option<usize>,
    pub length: u32,
}

/// Squares and pieces of one player.
#[derive(Clone, Copy, Debug, PartialEq, Eq, Structural)]
pub struct PlayerSnapshot {
    pub pieces: u32,
    pub points: u32,
}

/// One turn of a game record: the state of every player after the move, indexed by
/// player, and the move `[x, y, player, seed]` (`None` for the initial state).
pub struct TurnHistory {
    pub turn: u32,
    pub snapshot: Vec<PlayerSnapshot>,
    pub mv: Option<[u64; 4]>,
}

/// What a move did: the board after it, the players it eliminated with their
/// eliminators, the explosions and the board after each, and whether the game is over.
pub struct ProcessMoveResult {
    pub board: Vec<Vec<Cell>>,
    pub eliminated: Vec<usize>,
    pub killed_by: Vec<(usize, usize)>,
    pub chain_count: u32,
    pub game_over: bool,
    pub winner: Option<usize>,
    pub steps: Vec<Vec<Vec<Cell>>>,
    pub exploded: Vec<(usize, usize)>,
}

/// The outcome of a game played to its end; `chain_stats` is indexed by player.
pub struct SimulateResult {
    pub board: Vec<Vec<Cell>>,
    pub winner: Option<usize>,
    pub eliminated_order: Vec<usize>,
    pub killed_by: Vec<(usize, usize)>,
    pub chain_stats: Vec<Option<ChainStatsPlayer>>,
    pub max_chain: MaxChain,
    pub history: Vec<TurnHistory>,
}

/// The search a player uses and its depth.
pub struct PlayerAiConfig {
    pub algorithm: String,
    pub depth: usize,
    pub use_ml_eval: bool,
}

// ─── live players ───

/// The players below `n`, ascending, that are not in `elim` and have a piece.
pub open spec fn alive_seq(b: Seq<Seq<Cell>>, elim: Seq<usize>, n: nat) -> Seq<usize>
    decreases n,
{
    if n == 0 {
        Seq::<usize>::empty()
    } else {
        let s = alive_seq(b, elim, (n - 1) as nat);
        let p = (n - 1) as usize;
        if !elim.contains(p) && owns_any(b, p) { s.push(p) } else { s }
    }
}

/// The first of a sequence, if any.
pub open spec fn first_of(s: Seq<usize>) -> Option<usize> {
    if s.len() > 0 { Some(s[0]) } else { None }
}

/// The player after `cur` in `a` (after the first when `cur` is not in `a`).
pub open spec fn next_in(a: Seq<usize>, cur: usize) -> usize {
    a[(index_or_zero(a, cur) + 1) % (a.len() as int)]
}

proof fn lemma_alive_seq(b: Seq<Seq<Cell>>, elim: Seq<usize>, n: nat)
    requires
        n <= usize::MAX,
    ensures
        alive_seq(b, elim, n).len() <= n,
        forall|k: int| 0 <= k < alive_seq(b, elim, n).len() ==> #[trigger] alive_seq(b, elim, n)[k] < n,
        forall|p: usize| alive_seq(b, elim, n).contains(p) <==> (p < n && !elim.contains(p) && owns_any(b, p)),
    decreases n,
{
    if n > 0 {
        lemma_alive_seq(b, elim, (n - 1) as nat);
        let s = alive_seq(b, elim, (n - 1) as nat);
        let p = (n - 1) as usize;
        if !elim.contains(p) && owns_any(b, p) {
            let t = s.push(p);
            assert forall|q: usize| t.contains(q) <==> (q < n && !elim.contains(q) && owns_any(b, q)) by {
                if q == p {
                    assert(t[s.len() as int] == q);
                } else if t.contains(q) {
                    let k = choose|k: int| 0 <= k < t.len() && t[k] == q;
                    assert(s[k] == q);
                } else if s.contains(q) {
                    let k = choose|k: int| 0 <= k < s.len() && s[k] == q;
                    assert(t[k] == q);
                }
            }
        }
    }
}

/// The players below `max_players` that are not eliminated and have a piece, ascending.
pub fn alive_players(board: &Vec<Vec<Cell>>, elim: &Vec<usize>, max_players: usize) -> (r: Vec<usize>)
    ensures
        r@ == alive_seq(bview(board), elim@, max_players as nat),
{
    let mut r: Vec<usize> = Vec::new();
    let mut p: usize = 0;
    while p < max_players
        invariant
            0 <= p <= max_players,
            r@ == alive_seq(bview(board), elim@, p as nat),
        decreases max_players - p,
    {
        if !contains_player(elim, p) && has_pieces(board, p) {
            r.push(p);
        }
        p += 1;
    }
    r
}

/// The players below `n`, ascending, that are not in `elim` (with or without pieces).
pub open spec fn not_out_seq(elim: Seq<usize>, n: nat) -> Seq<usize>
    decreases n,
{
    if n == 0 {
        Seq::<usize>::empty()
    } else {
        let s = not_out_seq(elim, (n - 1) as nat);
        let p = (n - 1) as usize;
        if !elim.contains(p) { s.push(p) } else { s }
    }
}

/// The players below `max_players` that are not eliminated, ascending.
pub fn not_out_players(elim: &Vec<usize>, max_players: usize) -> (r: Vec<usize>)
    ensures
        r@ == not_out_seq(elim@, max_players as nat),
{
    let mut r: Vec<usize> = Vec::new();
    let mut p: usize = 0;
    while p < max_players
        invariant
            0 <= p <= max_players,
            r@ == not_out_seq(elim@, p as nat),
        decreases max_players - p,
    {
        if !contains_player(elim, p) {
            r.push(p);
        }
        p += 1;
    }
    r
}

/// The player after `cur` in a non-empty turn order (after the first when `cur` is
/// not in it).
pub fn next_player_in(order: &Vec<usize>, cur: usize) -> (r: usize)
    requires
        order@.len() > 0,
    ensures
        r == next_in(order@, cur),
{
    let n = order.len();
    let idx = position_or_zero(order, cur);
    assert(idx < n);
    order[(idx + 1) % n]
}

/// Whether the game is over after a move that eliminated `n` players: all but one
/// are out.
pub open spec fn over_after(n: nat, max_players: usize) -> bool {
    n >= (if max_players >= 1 { max_players - 1 } else { 0 })
}

/// The cap mode of a request, the default (`Cap4`) when none is given.
pub open spec fn cap_or_default(cm: Option<CapMode>) -> CapMode {
    match cm {
        Some(c) => c,
        None => CapMode::Cap4,
    }
}

/// Plays a move and reports it: the board after the chain, the eliminated players and
/// their eliminators, every explosion with the board after it, and the winner when at
/// most one player is left in.
pub fn process_move(
    board: Vec<Vec<Cell>>,
    size: usize,
    x: usize,
    y: usize,
    player: usize,
    max_players: usize,
    border_mode: BorderMode,
    cap_mode: Option<CapMode>,
    seed: Option<u64>,
) -> (r: ProcessMoveResult)
    requires
        click_ok(bview(&board), size, x, y, player),
    ensures
        wf(bview(&r.board), size as int),
        click_result(
            bview(&board),
            bview(&r.board),
            size,
            x,
            y,
            player,
            border_mode,
            cap_or_default(cap_mode),
            true,
            r.eliminated@,
            r.chain_count,
            r.killed_by@,
            steps_view(r.steps@),
            r.exploded@,
        ),
        seed matches Some(s) ==> (bview(&r.board), r.eliminated@, r.chain_count, r.killed_by@, steps_view(r.steps@), r.exploded@)
            == seeded_click(bview(&board), size, x, y, player, border_mode, cap_or_default(cap_mode), s, true),
        r.game_over == over_after(r.eliminated@.len(), max_players),
        r.winner == if r.game_over {
            first_of(alive_seq(bview(&r.board), r.eliminated@, max_players as nat))
        } else {
            None
        },
{
    let mut b = board;
    let cm = match cap_mode {
        Some(c) => c,
        None => CapMode::default(),
    };
    let (eliminated, chain_count, killed_by, steps, exploded) =
        process_click_with_snapshots(&mut b, size, x, y, player, max_players, border_mode, cm, seed);
    let game_over = eliminated.len() >= max_players.saturating_sub(1);
    let winner = if game_over {
        let alive = alive_players(&b, &eliminated, max_players);
        if alive.len() > 0 { Some(alive[0]) } else { None }
    } else {
        None
    };
    ProcessMoveResult { board: b, eliminated, killed_by, chain_count, game_over, winner, steps, exploded }
}

// ─── game records ───

/// Squares and pieces of `p` in the first `n` squares of a row.
pub open spec fn row_tally(row: Seq<Cell>, p: usize, n: nat) -> (nat, nat)
    decreases n,
{
    if n == 0 {
        (0, 0)
    } else {
        let t = row_tally(row, p, (n - 1) as nat);
        let c = row[n - 1];
        if c.owner == Some(p) { ((t.0 + 1) as nat, (t.1 + c.count) as nat) } else { t }
    }
}

/// Squares and pieces of `p` in the first `n` rows.
pub open spec fn board_tally(b: Seq<Seq<Cell>>, p: usize, n: nat) -> (nat, nat)
    decreases n,
{
    if n == 0 {
        (0, 0)
    } else {
        let t = board_tally(b, p, (n - 1) as nat);
        let r = row_tally(b[n - 1], p, b[n - 1].len());
        ((t.0 + r.0) as nat, (t.1 + r.1) as nat)
    }
}

/// The state of every player below `n`.
pub open spec fn snapshot_spec(b: Seq<Seq<Cell>>, n: nat) -> Seq<PlayerSnapshot> {
    Seq::new(n, |p: int| PlayerSnapshot {
        pieces: board_tally(b, p as usize, b.len()).0 as u32,
        points: board_tally(b, p as usize, b.len()).1 as u32,
    })
}

proof fn lemma_row_tally_bound(row: Seq<Cell>, p: usize, n: nat)
    ensures
        row_tally(row, p, n).0 <= n,
        row_tally(row, p, n).1 <= 255 * n,
    decreases n,
{
    if n > 0 {
        lemma_row_tally_bound(row, p, (n - 1) as nat);
    }
}

proof fn lemma_board_tally_bound(b: Seq<Seq<Cell>>, p: usize, n: nat, w: nat)
    requires
        n <= b.len(),
        forall|i: int| 0 <= i < b.len() ==> #[trigger] b[i].len() == w,
    ensures
        board_tally(b, p, n).0 <= n * w,
        board_tally(b, p, n).1 <= 255 * n * w,
    decreases n,
{
    if n > 0 {
        lemma_board_tally_bound(b, p, (n - 1) as nat, w);
        lemma_row_tally_bound(b[n - 1], p, w);
        assert((n - 1) * w + w == n * w) by (nonlinear_arith);
        assert(255 * (n - 1) * w + 255 * w == 255 * n * w) by (nonlinear_arith);
    }
}

/// Counts the squares and pieces of every player below `max_players`.
fn snapshot(board: &Vec<Vec<Cell>>, size: usize, max_players: usize) -> (r: Vec<PlayerSnapshot>)
    requires
        wf(bview(board), size as int),
        size <= 256,
    ensures
        r@ == snapshot_spec(bview(board), max_players as nat),
{
    let ghost b = bview(board);
    let mut r: Vec<PlayerSnapshot> = Vec::new();
    let mut p: usize = 0;
    while p < max_players
        invariant
            b == bview(board),
            wf(b, size as int),
            size <= 256,
            0 <= p <= max_players,
            r@ == snapshot_spec(b, max_players as nat).take(p as int),
        decreases max_players - p,
    {
        let mut pieces: u32 = 0;
        let mut points: u32 = 0;
        let mut i: usize = 0;
        while i < board.len()
            invariant
                b == bview(board),
                wf(b, size as int),
                size <= 256,
                0 <= i <= board@.len(),
                (pieces as nat, points as nat) == board_tally(b, p, i as nat),
            decreases board@.len() - i,
        {
            proof {
                lemma_board_tally_bound(b, p, (i + 1) as nat, size as nat);
                assert((i + 1) * size <= 65536) by (nonlinear_arith)
                    requires
                        i + 1 <= size,
                        size <= 256,
                ;
                assert(255 * (i + 1) * size <= 255 * 65536) by (nonlinear_arith)
                    requires
                        (i + 1) * size <= 65536,
                ;
            }
            let row = &board[i];
            assert(row@ == b[i as int]);
            let mut j: usize = 0;
            while j < row.len()
                invariant
                    0 <= j <= row@.len(),
                    row@.len() == size,
                    board_tally(b, p, (i + 1) as nat).0 <= 65536,
                    board_tally(b, p, (i + 1) as nat).1 <= 255 * 65536,
                    board_tally(b, p, (i + 1) as nat) == ((board_tally(b, p, i as nat).0 + row_tally(row@, p, size as nat).0) as nat,
                        (board_tally(b, p, i as nat).1 + row_tally(row@, p, size as nat).1) as nat),
                    (pieces as nat, points as nat) == ((board_tally(b, p, i as nat).0 + row_tally(row@, p, j as nat).0) as nat,
                        (board_tally(b, p, i as nat).1 + row_tally(row@, p, j as nat).1) as nat),
                decreases row@.len() - j,
            {
                proof {
                    lemma_row_tally_mono(row@, p, (j + 1) as nat, size as nat);
                }
                let c = row[j];
                if c.owner == Some(p) {
                    pieces = pieces + 1;
                    points = points + c.count as u32;
                }
                j += 1;
            }
            i += 1;
        }
        r.push(PlayerSnapshot { pieces, points });
        proof {
            assert(r@ =~= snapshot_spec(b, max_players as nat).take(p + 1));
        }
        p += 1;
    }
    assert(r@ =~= snapshot_spec(b, max_players as nat));
    r
}

proof fn lemma_row_tally_mono(row: Seq<Cell>, p: usize, k: nat, n: nat)
    requires
        k <= n,
    ensures
        row_tally(row, p, k).0 <= row_tally(row, p, n).0,
        row_tally(row, p, k).1 <= row_tally(row, p, n).1,
    decreases n,
{
    if k < n {
        lemma_row_tally_mono(row, p, k, (n - 1) as nat);
    }
}

// ─── playing a game to its end ───

/// The turn limit of a simulated game: four turns per square and player, at least
/// a thousand.
pub open spec fn max_steps_for(size: usize, max_players: usize) -> int {
    let n = size * size * 4 * max_players;
    if n >= 1000 { n } else { 1000 }
}

/// What the game needs next: a move of a player, or nothing more (with the winner).
#[derive(Clone, Copy, Debug, PartialEq, Eq, Structural)]
pub enum SimAction {
    Ask(usize),
    Finish(Option<usize>),
}

/// A game played by programs, turn by turn: `next` says whose move is wanted and
/// `apply` plays the move that player chose (or records that it had none).
pub struct Simulation {
    pub board: Vec<Vec<Cell>>,
    pub size: usize,
    pub max_players: usize,
    pub cur: usize,
    pub eliminated: Vec<usize>,
    pub killed_by: Vec<(usize, usize)>,
    pub chain_stats: Vec<Option<ChainStatsPlayer>>,
    pub max_chain: MaxChain,
    pub history: Vec<TurnHistory>,
    pub game_count: u32,
    pub no_move_round: usize,
    pub max_steps: usize,
    pub steps: usize,
    pub border_mode: BorderMode,
    pub cap_mode: CapMode,
    pub awaiting: bool,
    /// The board the game started from.
    pub start: Ghost<Seq<Seq<Cell>>>,
}

/// Appends `src` to `dst`.
fn append_pairs(dst: &mut Vec<(usize, usize)>, src: &Vec<(usize, usize)>)
    ensures
        final(dst)@ == old(dst)@ + src@,
{
    let mut k: usize = 0;
    while k < src.len()
        invariant
            0 <= k <= src@.len(),
            dst@ == old(dst)@ + src@.take(k as int),
        decreases src@.len() - k,
    {
        dst.push(src[k]);
        assert(src@.take(k + 1) == src@.take(k as int).push(src@[k as int]));
        k += 1;
    }
    assert(src@.take(src@.len() as int) == src@);
}

/// Appends each player of `src` to `dst` unless it is listed already.
pub fn add_new_players(dst: &mut Vec<usize>, src: &Vec<usize>)
    ensures
        final(dst)@ == add_missing(old(dst)@, src@, src@.len()),
{
    let mut k: usize = 0;
    while k < src.len()
        invariant
            0 <= k <= src@.len(),
            dst@ == add_missing(old(dst)@, src@, k as nat),
        decreases src@.len() - k,
    {
        let e = src[k];
        if !contains_player(dst, e) {
            dst.push(e);
        }
        k += 1;
    }
}

/// The chain statistics after `cur` set off a chain of `cc` explosions.
pub open spec fn stats_after(st: Seq<Option<ChainStatsPlayer>>, cur: usize, cc: u32) -> Seq<Option<ChainStatsPlayer>> {
    if cc > 0 {
        let old_s = match st[cur as int] {
            Some(x) => x,
            None => ChainStatsPlayer { triggered: 0, max_chain: 0 },
        };
        st.update(cur as int, Some(ChainStatsPlayer {
            triggered: (old_s.triggered + 1) as u32,
            max_chain: if cc > old_s.max_chain { cc } else { old_s.max_chain },
        }))
    } else {
        st
    }
}

/// The longest chain after `cur` set off one of `cc` explosions.
pub open spec fn max_chain_after(m: MaxChain, cur: usize, cc: u32) -> MaxChain {
    if cc > 0 && cc > m.length { MaxChain { player: Some(cur), length: cc } } else { m }
}

/// The eliminated players in order, with each of `new` appended unless listed.
pub open spec fn add_missing(s: Seq<usize>, new: Seq<usize>, n: nat) -> Seq<usize>
    decreases n,
{
    if n == 0 {
        s
    } else {
        let t = add_missing(s, new, (n - 1) as nat);
        if t.contains(new[n - 1]) { t } else { t.push(new[n - 1]) }
    }
}

/// The seed of the random events of a turn: from the game count and the turn.
pub open spec fn step_seed(gc: u32, turn: nat) -> u64 {
    u64_specs::wrapping_add(u64_specs::wrapping_mul(gc as u64, 1000003), turn as u64)
}

/// The board reached from `b` by the moves recorded in `hist`, each played with the
/// seed recorded beside it.
pub open spec fn replay(b: Seq<Seq<Cell>>, hist: Seq<TurnHistory>, size: usize, bm: BorderMode, cm: CapMode) -> Seq<Seq<Cell>>
    decreases hist.len(),
{
    if hist.len() == 0 {
        b
    } else {
        let prev = replay(b, hist.drop_last(), size, bm, cm);
        match hist.last().mv {
            Some(m) => seeded_click(prev, size, m[0] as usize, m[1] as usize, m[2] as usize, bm, cm, m[3], false).0,
            None => prev,
        }
    }
}

impl Simulation {
    /// The state is consistent and its counters cannot overflow.
    pub open spec fn sim_ok(&self) -> bool {
        &&& wf(bview(&self.board), self.size as int)
        &&& 1 <= self.size <= 256
        &&& self.max_players <= 64
        &&& self.chain_stats@.len() == self.max_players
        &&& self.max_steps == max_steps_for(self.size, self.max_players)
        &&& self.max_steps <= 16777216
        &&& self.steps <= self.max_steps + 1
        &&& self.game_count + self.max_steps - self.steps + (if self.awaiting { 1int } else { 0int }) <= u32::MAX
        &&& self.history@.len() + (if self.awaiting { 1int } else { 0int }) <= self.steps
        &&& replay(self.start@, self.history@, self.size, self.border_mode, self.cap_mode) == bview(&self.board)
        &&& forall|k: int| 0 <= k < self.history@.len() ==> (#[trigger] self.history@[k]).turn == k
        &&& self.no_move_round + (if self.awaiting { 1int } else { 0int }) <= self.steps
        &&& forall|p: int| 0 <= p < self.chain_stats@.len() ==>
            (#[trigger] self.chain_stats@[p] matches Some(x) ==> x.triggered <= self.history@.len())
        &&& self.awaiting ==> {
            let a = alive_seq(bview(&self.board), self.eliminated@, self.max_players as nat);
            &&& a.contains(self.cur)
            &&& a.len() >= 2
            &&& self.steps <= self.max_steps
        }
    }

    /// Everything but the turn counters and the player to move is as in `old`.
    pub open spec fn same_game(&self, old: &Simulation) -> bool {
        &&& self.board == old.board
        &&& self.size == old.size
        &&& self.max_players == old.max_players
        &&& self.eliminated == old.eliminated
        &&& self.killed_by == old.killed_by
        &&& self.chain_stats == old.chain_stats
        &&& self.max_chain == old.max_chain
        &&& self.history == old.history
        &&& self.game_count == old.game_count
        &&& self.max_steps == old.max_steps
        &&& self.border_mode == old.border_mode
        &&& self.cap_mode == old.cap_mode
        &&& self.start == old.start
    }

    /// A game from a position: `cur_player` to move, `eliminated` out already.
    pub fn new(
        board: Vec<Vec<Cell>>,
        size: usize,
        max_players: usize,
        cur_player: usize,
        eliminated: Vec<usize>,
        border_mode: BorderMode,
        cap_mode: CapMode,
        game_count: u32,
    ) -> (r: Simulation)
        requires
            wf(bview(&board), size as int),
            1 <= size <= 256,
            max_players <= 64,
            game_count + max_steps_for(size, max_players) <= u32::MAX,
        ensures
            r.sim_ok(),
            !r.awaiting,
            r.board == board,
            r.size == size,
            r.max_players == max_players,
            r.cur == cur_player,
            r.eliminated == eliminated,
            r.killed_by@.len() == 0,
            forall|p: int| 0 <= p < max_players ==> #[trigger] r.chain_stats@[p] is None,
            r.max_chain == (MaxChain { player: None, length: 0 }),
            r.history@.len() == 0,
            r.game_count == game_count,
            r.no_move_round == 0,
            r.steps == 0,
            r.border_mode == border_mode,
            r.cap_mode == cap_mode,
            r.start@ == bview(&board),
    {
        assert(size * size <= 65536) by (nonlinear_arith)
            requires
                size <= 256,
        ;
        assert(size * size * 4 * max_players <= 65536 * 4 * 64) by (nonlinear_arith)
            requires
                size * size <= 65536,
                max_players <= 64,
        ;
        let n = size * size * 4 * max_players;
        let max_steps: usize = if n >= 1000 { n } else { 1000 };
        let mut chain_stats: Vec<Option<ChainStatsPlayer>> = Vec::new();
        let mut p: usize = 0;
        while p < max_players
            invariant
                0 <= p <= max_players,
                chain_stats@.len() == p,
                forall|q: int| 0 <= q < p ==> #[trigger] chain_stats@[q] is None,
            decreases max_players - p,
        {
            chain_stats.push(None);
            p += 1;
        }
        Simulation {
            board,
            size,
            max_players,
            cur: cur_player,
            eliminated,
            killed_by: Vec::new(),
            chain_stats,
            max_chain: MaxChain { player: None, length: 0 },
            history: Vec::new(),
            game_count,
            no_move_round: 0,
            max_steps,
            steps: 0,
            border_mode,
            cap_mode,
            awaiting: false,
            start: Ghost(bview(&board)),
        }
    }

    /// Starts the next turn: the game ends at the turn limit or when at most one
    /// player is left (the winner is the first left, if any); a player that is out
    /// passes the turn; otherwise the player to move is asked for a move.
    pub fn next(&mut self) -> (act: SimAction)
        requires
            old(self).sim_ok(),
            !old(self).awaiting,
            old(self).steps <= old(self).max_steps,
        ensures
            final(self).sim_ok(),
            final(self).same_game(old(self)),
            final(self).no_move_round == old(self).no_move_round,
            ({
                let a = alive_seq(bview(&old(self).board), old(self).eliminated@, old(self).max_players as nat);
                let s1 = old(self).steps + 1;
                if s1 > old(self).max_steps || a.len() <= 1 {
                    act == SimAction::Finish(first_of(a)) && final(self).steps == s1
                        && final(self).cur == old(self).cur && !final(self).awaiting
                } else if a.contains(old(self).cur) {
                    act == SimAction::Ask(old(self).cur) && final(self).steps == s1
                        && final(self).cur == old(self).cur && final(self).awaiting
                } else if s1 + 1 > old(self).max_steps {
                    act == SimAction::Finish(first_of(a)) && final(self).steps == s1 + 1
                        && final(self).cur == a[1] && !final(self).awaiting
                } else {
                    act == SimAction::Ask(a[1]) && final(self).steps == s1 + 1
                        && final(self).cur == a[1] && final(self).awaiting
                }
            }),
    {
        let ghost a = alive_seq(bview(&self.board), self.eliminated@, self.max_players as nat);
        proof {
            lemma_alive_seq(bview(&self.board), self.eliminated@, self.max_players as nat);
        }
        loop
            invariant
                self.sim_ok(),
                !self.awaiting,
                self.steps <= self.max_steps,
                self.same_game(old(self)),
                self.no_move_round == old(self).no_move_round,
                a == alive_seq(bview(&self.board), self.eliminated@, self.max_players as nat),
                forall|p: usize| a.contains(p) <==> (p < self.max_players && !self.eliminated@.contains(p) && owns_any(bview(&self.board), p)),
                (self.steps == old(self).steps && self.cur == old(self).cur) || (
                    self.steps == old(self).steps + 1 && a.len() >= 2 && !a.contains(old(self).cur)
                        && self.cur == a[1] && a.contains(self.cur) && self.steps <= self.max_steps),
            decreases self.max_steps + 1 - self.steps,
        {
            self.steps += 1;
            let alive = alive_players(&self.board, &self.eliminated, self.max_players);
            if self.steps > self.max_steps {
                return SimAction::Finish(if alive.len() > 0 { Some(alive[0]) } else { None });
            }
            if alive.len() <= 1 {
                return SimAction::Finish(if alive.len() > 0 { Some(alive[0]) } else { None });
            }
            if !contains_player(&alive, self.cur) {
                let ghost c0 = self.cur;
                assert(c0 == old(self).cur);
                let idx = position_or_zero(&alive, self.cur);
                assert(idx == 0);
                let ghost n = alive.len() as int;
                assert(1int % n == 1) by (nonlinear_arith)
                    requires
                        n >= 2,
                ;
                self.cur = alive[(idx + 1) % alive.len()];
                proof {
                    assert(a.contains(a[1]));
                }
                continue;
            }
            self.awaiting = true;
            return SimAction::Ask(self.cur);
        }
    }

    /// Plays the move the asked player chose. Without a move the turn passes, and the
    /// game ends (with the first player left as winner) once every player left has
    /// passed in a row. With a move, the chain is played with the turn's seed, the
    /// eliminated players, their eliminators and the chain statistics are recorded, a
    /// snapshot of every player is added to the history, and the turn passes.
    /// Returns the winner when the game ended.
    pub fn apply(&mut self, mv: Option<(usize, usize)>) -> (done: Option<Option<usize>>)
        requires
            old(self).sim_ok(),
            old(self).awaiting,
            mv matches Some(m) ==> click_ok(bview(&old(self).board), old(self).size, m.0, m.1, old(self).cur),
        ensures
            final(self).sim_ok(),
            !final(self).awaiting,
            final(self).steps == old(self).steps,
            final(self).size == old(self).size,
            final(self).max_players == old(self).max_players,
            final(self).max_steps == old(self).max_steps,
            final(self).border_mode == old(self).border_mode,
            final(self).cap_mode == old(self).cap_mode,
            final(self).start == old(self).start,
            ({
                let a = alive_seq(bview(&old(self).board), old(self).eliminated@, old(self).max_players as nat);
                match mv {
                    None => {
                        &&& final(self).board == old(self).board
                        &&& final(self).eliminated == old(self).eliminated
                        &&& final(self).killed_by == old(self).killed_by
                        &&& final(self).chain_stats == old(self).chain_stats
                        &&& final(self).max_chain == old(self).max_chain
                        &&& final(self).history == old(self).history
                        &&& final(self).game_count == old(self).game_count
                        &&& final(self).no_move_round == old(self).no_move_round + 1
                        &&& if old(self).no_move_round + 1 >= a.len() {
                            done == Some(first_of(a)) && final(self).cur == old(self).cur
                        } else {
                            done is None && final(self).cur == next_in(a, old(self).cur)
                        }
                    },
                    Some(m) => {
                        let seed = step_seed(old(self).game_count, old(self).history@.len());
                        &&& done is None
                        &&& final(self).no_move_round == 0
                        &&& final(self).cur == next_in(a, old(self).cur)
                        &&& final(self).game_count == old(self).game_count + 1
                        &&& exists|el: Seq<usize>, cc: u32, kb: Seq<(usize, usize)>| {
                            &&& #[trigger] click_result(
                                bview(&old(self).board),
                                bview(&final(self).board),
                                old(self).size,
                                m.0,
                                m.1,
                                old(self).cur,
                                old(self).border_mode,
                                old(self).cap_mode,
                                false,
                                el,
                                cc,
                                kb,
                                Seq::empty(),
                                Seq::empty(),
                            )
                            &&& final(self).killed_by@ == old(self).killed_by@ + kb
                            &&& final(self).eliminated@ == add_missing(old(self).eliminated@, el, el.len())
                            &&& final(self).chain_stats@ == stats_after(old(self).chain_stats@, old(self).cur, cc)
                            &&& final(self).max_chain == max_chain_after(old(self).max_chain, old(self).cur, cc)
                        }
                        &&& final(self).history@.len() == old(self).history@.len() + 1
                        &&& final(self).history@.drop_last() == old(self).history@
                        &&& final(self).history@.last().turn == old(self).history@.len()
                        &&& final(self).history@.last().snapshot@ == snapshot_spec(bview(&final(self).board), old(self).max_players as nat)
                        &&& final(self).history@.last().mv == Some([m.0 as u64, m.1 as u64, old(self).cur as u64, seed])
                        &&& bview(&final(self).board) == seeded_click(
                            bview(&old(self).board),
                            old(self).size,
                            m.0,
                            m.1,
                            old(self).cur,
                            old(self).border_mode,
                            old(self).cap_mode,
                            seed,
                            false,
                        ).0
                    },
                }
            }),
    {
        self.awaiting = false;
        let ghost a = alive_seq(bview(&self.board), self.eliminated@, self.max_players as nat);
        proof {
            lemma_alive_seq(bview(&self.board), self.eliminated@, self.max_players as nat);
        }
        let alive = alive_players(&self.board, &self.eliminated, self.max_players);
        let idx = position_or_zero(&alive, self.cur);
        let next_cur = alive[(idx + 1) % alive.len()];
        match mv {
            None => {
                self.no_move_round += 1;
                if self.no_move_round >= alive.len() {
                    return Some(Some(alive[0]));
                }
                self.cur = next_cur;
                None
            },
            Some((x, y)) => {
                self.no_move_round = 0;
                let cur = self.cur;
                assert(a.contains(cur));
                let seed = (self.game_count as u64).wrapping_mul(1000003u64).wrapping_add(self.history.len() as u64);
                let ghost b0 = bview(&self.board);
                let (elims, chain_count, kbs) = process_click_with_killer(
                    &mut self.board,
                    self.size,
                    x,
                    y,
                    cur,
                    self.max_players,
                    self.border_mode,
                    self.cap_mode,
                    Some(seed),
                );
                append_pairs(&mut self.killed_by, &kbs);
                add_new_players(&mut self.eliminated, &elims);
                assert(cur < self.max_players);
                let ghost st0 = self.chain_stats@;
                if chain_count > 0 {
                    let old_s = match self.chain_stats[cur] {
                        Some(x) => x,
                        None => ChainStatsPlayer { triggered: 0, max_chain: 0 },
                    };
                    let new_s = ChainStatsPlayer {
                        triggered: old_s.triggered + 1,
                        max_chain: if chain_count > old_s.max_chain { chain_count } else { old_s.max_chain },
                    };
                    self.chain_stats.set(cur, Some(new_s));
                    if chain_count > self.max_chain.length {
                        self.max_chain = MaxChain { player: Some(cur), length: chain_count };
                    }
                }
                assert(self.chain_stats@ == stats_after(st0, cur, chain_count));
                let sn = snapshot(&self.board, self.size, self.max_players);
                let turn = self.history.len() as u32;
                self.history.push(TurnHistory { turn, snapshot: sn, mv: Some([x as u64, y as u64, cur as u64, seed]) });
                self.game_count += 1;
                self.cur = next_cur;
                proof {
                    assert(self.history@.drop_last() =~= old(self).history@);
                    assert(self.history@.last().mv == Some([x as u64, y as u64, cur as u64, seed]));
                    assert((x as u64) as usize == x && (y as u64) as usize == y && (cur as u64) as usize == cur);
                    assert(replay(self.start@, self.history@, self.size, self.border_mode, self.cap_mode) == bview(&self.board));
                    assert(click_result(b0, bview(&self.board), self.size, x, y, cur, self.border_mode, self.cap_mode, false,
                        elims@, chain_count, kbs@, Seq::empty(), Seq::empty()));
                }
                None
            },
        }
    }

    /// The record of the finished game, with its winner.
    pub fn into_result(self, winner: Option<usize>) -> (r: SimulateResult)
        ensures
            self.sim_ok() ==> replay(self.start@, r.history@, self.size, self.border_mode, self.cap_mode) == bview(&r.board),
            self.sim_ok() ==> forall|k: int| 0 <= k < r.history@.len() ==> (#[trigger] r.history@[k]).turn == k,
            r.board == self.board,
            r.winner == winner,
            r.eliminated_order == self.eliminated,
            r.killed_by == self.killed_by,
            r.chain_stats == self.chain_stats,
            r.max_chain == self.max_chain,
            r.history == self.history,
    {
        SimulateResult {
            board: self.board,
            winner,
            eliminated_order: self.eliminated,
            killed_by: self.killed_by,
            chain_stats: self.chain_stats,
            max_chain: self.max_chain,
            history: self.history,
        }
    }
}

/// Replaying the moves a game recorded, each with the seed recorded beside it, from
/// the board the game started from gives the board the game reached; and the turns
/// of the record are numbered 0, 1, 2, ... in order.
pub proof fn lemma_game_replays(sim: &Simulation)
    requires
        sim.sim_ok(),
    ensures
        replay(sim.start@, sim.history@, sim.size, sim.border_mode, sim.cap_mode) == bview(&sim.board),
        forall|k: int| 0 <= k < sim.history@.len() ==> (#[trigger] sim.history@[k]).turn == k,
{
}

} // verus!
