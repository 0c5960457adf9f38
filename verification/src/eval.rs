use crate::board::{bview, crit_level, nbrs_with_mode, sp_cell_threshold, sp_nbrs_with_mode, wf, BorderMode, CapMode, Cell, all_in};
use vstd::prelude::*;
use vstd::wrapping::u64_specs;

verus! {

/// Boards small enough for the scores to stay in `i32`: at most 256 rows of at
/// most 256 squares.
pub open spec fn small_board(b: Seq<Seq<Cell>>) -> bool {
    &&& b.len() <= 256
    &&& forall|i: int| 0 <= i < b.len() ==> (#[trigger] b[i]).len() <= 256
}

/// The per-square term of the board hash.
pub open spec fn cell_hash(i: usize, j: usize, c: Cell) -> u64 {
    let a = u64_specs::wrapping_add(u64_specs::wrapping_mul(i as u64, 31), j as u64);
    let b = u64_specs::wrapping_mul(a, 7);
    let o: u64 = match c.owner {
        Some(p) => p as u64,
        None => 99,
    };
    u64_specs::wrapping_mul(u64_specs::wrapping_add(b, o), c.count as u64)
}

/// One step of the board hash: multiply by the LCG constant, then add the square's term, wrapping.
pub open spec fn hash_step(acc: u64, h: u64) -> u64 {
    u64_specs::wrapping_add(u64_specs::wrapping_mul(acc, 6364136223846793005), h)
}

/// The hash folded over the first `m` squares of row `i`.
pub open spec fn row_hash(b: Seq<Seq<Cell>>, i: int, acc: u64, m: nat) -> u64
    decreases m,
{
    if m == 0 {
        acc
    } else {
        hash_step(row_hash(b, i, acc, (m - 1) as nat), cell_hash(i as usize, (m - 1) as usize, b[i][m - 1]))
    }
}

/// The hash folded over the first `n` rows, squares in row-major order.
pub open spec fn board_hash(b: Seq<Seq<Cell>>, n: nat) -> u64
    decreases n,
{
    if n == 0 {
        0
    } else {
        row_hash(b, n - 1, board_hash(b, (n - 1) as nat), b[n - 1].len())
    }
}

/// A deterministic pseudo-random value of the board, used to perturb the scores.
pub fn hash_board(board: &Vec<Vec<Cell>>) -> (r: u64)
    ensures
        r == board_hash(bview(board), board@.len() as nat),
{
    let ghost b = bview(board);
    let mut acc: u64 = 0;
    let mut i: usize = 0;
    while i < board.len()
        invariant
            b == bview(board),
            0 <= i <= board@.len(),
            acc == board_hash(b, i as nat),
        decreases board@.len() - i,
    {
        let row = &board[i];
        assert(row@ == b[i as int]);
        let ghost start = acc;
        let mut j: usize = 0;
        while j < row.len()
            invariant
                b == bview(board),
                0 <= i < board@.len(),
                row@ == b[i as int],
                0 <= j <= row@.len(),
                start == board_hash(b, i as nat),
                acc == row_hash(b, i as int, start, j as nat),
            decreases row@.len() - j,
        {
            let c = row[j];
            let o: u64 = match c.owner {
                Some(p) => p as u64,
                None => 99,
            };
            let h = (i as u64).wrapping_mul(31).wrapping_add(j as u64).wrapping_mul(7).wrapping_add(o).wrapping_mul(c.count as u64);
            acc = acc.wrapping_mul(6364136223846793005).wrapping_add(h);
            j += 1;
        }
        i += 1;
    }
    acc
}

// ─── hand-written evaluation ───

/// The level from which a square counts as a threat, by cap mode.
pub open spec fn hand_crit(cm: CapMode) -> int {
    match cm {
        CapMode::Cap3 => 2,
        CapMode::Cap5 => 4,
        CapMode::Random => 3,
        CapMode::Cap4 => 3,
    }
}

/// The handcrafted threat bonus: four times the count at the critical level, 1 just below it.
pub open spec fn hand_threat(count: int, crit: int) -> int {
    if count >= crit { count * 4 } else if count >= crit - 1 { 1 } else { 0 }
}

/// The contribution of one square to the hand-written score of `player`.
pub open spec fn hand_term(c: Cell, player: usize, cm: CapMode) -> int {
    let t = 2 * c.count + 1 + 3 * hand_threat(c.count as int, hand_crit(cm));
    match c.owner {
        Some(p) => if p == player { t } else { -t },
        None => 0,
    }
}

/// The handcrafted terms of the first `m` squares of row `i`.
pub open spec fn hand_row_sum(b: Seq<Seq<Cell>>, i: int, m: nat, player: usize, cm: CapMode) -> int
    decreases m,
{
    if m == 0 { 0 } else { hand_row_sum(b, i, (m - 1) as nat, player, cm) + hand_term(b[i][m - 1], player, cm) }
}

/// The handcrafted terms of the first `n` rows.
pub open spec fn hand_sum(b: Seq<Seq<Cell>>, n: nat, player: usize, cm: CapMode) -> int
    decreases n,
{
    if n == 0 { 0 } else { hand_sum(b, (n - 1) as nat, player, cm) + hand_row_sum(b, n - 1, b[n - 1].len(), player, cm) }
}

/// Twice the random scale of the opening: 40 for the first three games, then
/// falling to the player's setting (at most 30) by the fifth.
pub open spec fn scale2(game_count: u32, user: u32) -> int {
    let u: int = if user > 30 { 30 } else { user as int };
    if game_count < 3 { 80 } else if game_count == 3 { 40 + u } else { 2 * u }
}

/// The perturbation `trunc(h / 100 * S - S / 2)` of the hand-written score for the
/// hash remainder `h` and the scale `S = s2 / 2`, as binary floating point yields it:
/// the exact value, except at `h = 58, S = 25`, where rounding gives 1 instead of 2.
pub open spec fn hand_noise(h: int, s2: int) -> int {
    let num = s2 * (h - 50);
    if h == 58 && s2 == 50 {
        1
    } else if num >= 0 {
        num / 200
    } else {
        -((-num) / 200)
    }
}

/// The hand-written score of the board for `player`.
pub open spec fn sp_eval_handcraft(b: Seq<Seq<Cell>>, player: usize, game_count: u32, cm: CapMode, user: u32, h: u64) -> int {
    let base = hand_sum(b, b.len(), player, cm);
    let s2 = scale2(game_count, user);
    if s2 > 0 { base + hand_noise((h % 100) as int, s2) } else { base }
}

/// The handcrafted term of one square.
fn hand_cell_term(c: Cell, player: usize, cap_mode: CapMode, crit: i32) -> (r: i32)
    requires
        crit == hand_crit(cap_mode),
    ensures
        r == hand_term(c, player, cap_mode),
        -3571 <= r <= 3571,
{
    let cnt = c.count as i32;
    let threat: i32 = if cnt >= crit {
        cnt * 4
    } else if cnt >= crit - 1 {
        1
    } else {
        0
    };
    let t = 2 * cnt + 1 + 3 * threat;
    match c.owner {
        Some(p) => if p == player { t } else { -t },
        None => 0,
    }
}

/// The handcrafted terms of one row.
fn hand_row(row: &Vec<Cell>, player: usize, cap_mode: CapMode, crit: i32, Ghost(b): Ghost<Seq<Seq<Cell>>>, Ghost(i): Ghost<int>) -> (r: i32)
    requires
        crit == hand_crit(cap_mode),
        0 <= i < b.len(),
        row@ == b[i],
        row@.len() <= 256,
    ensures
        r == hand_row_sum(b, i, row@.len() as nat, player, cap_mode),
        -914176 <= r <= 914176,
{
    let mut acc: i32 = 0;
    let mut j: usize = 0;
    while j < row.len()
        invariant
            crit == hand_crit(cap_mode),
            0 <= i < b.len(),
            row@ == b[i],
            row@.len() <= 256,
            0 <= j <= row@.len(),
            acc == hand_row_sum(b, i, j as nat, player, cap_mode),
            -3571 * j <= acc <= 3571 * j,
        decreases row@.len() - j,
    {
        let t = hand_cell_term(row[j], player, cap_mode, crit);
        acc = acc + t;
        j += 1;
    }
    acc
}

/// The perturbation for the hash remainder `hr` and twice the scale `s2`.
fn noise_of(hr: i32, s2: u32) -> (r: i32)
    requires
        0 <= hr < 100,
        s2 <= 80,
    ensures
        r == hand_noise(hr as int, s2 as int),
        -20 <= r <= 20,
{
    assert(-4000 <= (s2 as int) * (hr - 50) <= 4000) by (nonlinear_arith)
        requires
            0 <= hr < 100,
            0 <= s2 <= 80,
    ;
    let num: i32 = (s2 as i32) * (hr - 50);
    if hr == 58 && s2 == 50 {
        1
    } else if num >= 0 {
        num / 200
    } else {
        -((-num) / 200)
    }
}

/// Hand-written evaluation: twice the piece difference, plus the square difference,
/// plus three times the threat difference, with a small board-dependent perturbation
/// in the opening.
pub fn eval_board_handcraft(
    board: &Vec<Vec<Cell>>,
    player: usize,
    game_count: u32,
    _border_mode: BorderMode,
    cap_mode: CapMode,
    user_random_scale: u32,
) -> (r: i32)
    requires
        small_board(bview(board)),
    ensures
        r == sp_eval_handcraft(bview(board), player, game_count, cap_mode, user_random_scale, board_hash(bview(board), board@.len() as nat)),
        -400000000 <= r <= 400000000,
{
    let ghost b = bview(board);
    assert(b.len() == board@.len());
    let crit: i32 = match cap_mode {
        CapMode::Cap3 => 2,
        CapMode::Cap5 => 4,
        CapMode::Random => 3,
        CapMode::Cap4 => 3,
    };
    let mut base: i32 = 0;
    let mut i: usize = 0;
    while i < board.len()
        invariant
            b == bview(board),
            small_board(b),
            b.len() == board@.len(),
            crit == hand_crit(cap_mode),
            0 <= i <= board@.len(),
            base == hand_sum(b, i as nat, player, cap_mode),
            -914176 * i <= base <= 914176 * i,
        decreases board@.len() - i,
    {
        assert(board@[i as int]@ == b[i as int]);
        let r = hand_row(&board[i], player, cap_mode, crit, Ghost(b), Ghost(i as int));
        base = base + r;
        i += 1;
    }
    let u: u32 = if user_random_scale > 30 { 30 } else { user_random_scale };
    let s2: u32 = if game_count < 3 {
        80
    } else if game_count == 3 {
        40 + u
    } else {
        2 * u
    };
    if s2 > 0 {
        let h = hash_board(board);
        let noise = noise_of((h % 100) as i32, s2);
        base + noise
    } else {
        base
    }
}


// ─── improved evaluation ───

/// Half the distance of row (or column) `i` from the centre line, rounded down:
/// `floor(|i - (sz - 1) / 2| / 2)`.
pub open spec fn qdist(i: usize, sz: usize) -> int {
    let a = 2 * i - sz + 1;
    (if a >= 0 { a } else { -a }) / 4
}

/// The position bonus: 4 at the centre, falling to 0 towards the corners.
pub open spec fn pos_val(i: usize, j: usize, sz: usize) -> int {
    let d = qdist(i, sz) + qdist(j, sz);
    if 4 - d > 0 { 4 - d } else { 0 }
}

/// The improved threat bonus: five times the count at the critical level, 2 just below it.
pub open spec fn imp_threat(count: int, crit: int) -> int {
    if count >= crit { count * 5 } else if count >= crit - 1 { 2 } else { 0 }
}

/// `count` for each of the first `n` neighbours that is an enemy of the square's owner.
pub open spec fn prox_sum(b: Seq<Seq<Cell>>, ns: Seq<(usize, usize)>, n: nat, player: usize, mine: bool, count: int) -> int
    decreases n,
{
    if n == 0 {
        0
    } else {
        let nc = b[ns[n - 1].0 as int][ns[n - 1].1 as int];
        let hit = if mine { nc.owner is Some && nc.owner != Some(player) } else { nc.owner == Some(player) };
        prox_sum(b, ns, (n - 1) as nat, player, mine, count) + if hit { count } else { 0 }
    }
}

/// The contribution of square `(i, j)` to the improved score of `player`.
pub open spec fn imp_term(b: Seq<Seq<Cell>>, sz: usize, i: usize, j: usize, player: usize, bm: BorderMode, cm: CapMode) -> int {
    let c = b[i as int][j as int];
    let crit = sp_cell_threshold(i, j, sz, bm, cm) - 1;
    let ns = sp_nbrs_with_mode(i, j, sz, bm);
    match c.owner {
        Some(p) => {
            let mine = p == player;
            let t = 2 * c.count + 1 + imp_threat(c.count as int, crit) + 2 * pos_val(i, j, sz)
                + 3 * prox_sum(b, ns, ns.len(), player, mine, c.count as int);
            if mine { t } else { -t }
        },
        None => 0,
    }
}

/// The improved terms of the first `m` squares of row `i`.
pub open spec fn imp_row_sum(b: Seq<Seq<Cell>>, sz: usize, i: usize, m: nat, player: usize, bm: BorderMode, cm: CapMode) -> int
    decreases m,
{
    if m == 0 { 0 } else { imp_row_sum(b, sz, i, (m - 1) as nat, player, bm, cm) + imp_term(b, sz, i, (m - 1) as usize, player, bm, cm) }
}

/// The improved terms of the first `n` rows.
pub open spec fn imp_sum(b: Seq<Seq<Cell>>, sz: usize, n: nat, player: usize, bm: BorderMode, cm: CapMode) -> int
    decreases n,
{
    if n == 0 { 0 } else { imp_sum(b, sz, (n - 1) as nat, player, bm, cm) + imp_row_sum(b, sz, (n - 1) as usize, sz as nat, player, bm, cm) }
}

/// The random scale of the improved score: 40 for the first three games, then
/// falling to the player's setting (at most 30) by the fifth.
pub open spec fn imp_scale(game_count: u32, user: u32) -> int {
    let u: int = if user > 30 { 30 } else { user as int };
    if game_count < 3 { 40 } else if game_count == 3 { 40 - (40 - u) / 2 } else { u }
}

/// The improved score of the board for `player`.
pub open spec fn sp_eval_improved(b: Seq<Seq<Cell>>, player: usize, game_count: u32, bm: BorderMode, cm: CapMode, user: u32, h: u64) -> int {
    let sz = b.len() as usize;
    let base = imp_sum(b, sz, sz as nat, player, bm, cm);
    let rs = imp_scale(game_count, user);
    if rs > 0 { base + ((h % 100) as int) * rs / 100 - rs / 2 } else { base }
}

/// Half the distance of index `i` from the centre line, rounded down.
fn qdist_exec(i: usize, sz: usize) -> (r: i32)
    requires
        i < sz,
        sz <= 256,
    ensures
        r == qdist(i, sz),
        0 <= r <= 128,
{
    let a: usize = if 2 * i + 1 >= sz { 2 * i + 1 - sz } else { sz - 1 - 2 * i };
    (a / 4) as i32
}

/// `cnt` for each listed neighbour that is an enemy of the square's owner.
fn prox_exec(board: &Vec<Vec<Cell>>, sz: usize, ns: &Vec<(usize, usize)>, player: usize, mine: bool, cnt: i32) -> (r: i32)
    requires
        wf(bview(board), sz as int),
        all_in(ns@, sz),
        ns@.len() <= 4,
        0 <= cnt <= 255,
    ensures
        r == prox_sum(bview(board), ns@, ns@.len() as nat, player, mine, cnt as int),
        0 <= r <= 1020,
{
    let ghost b = bview(board);
    let mut prox: i32 = 0;
    let mut k: usize = 0;
    while k < ns.len()
        invariant
            b == bview(board),
            wf(b, sz as int),
            all_in(ns@, sz),
            ns@.len() <= 4,
            0 <= k <= ns@.len(),
            0 <= cnt <= 255,
            prox == prox_sum(b, ns@, k as nat, player, mine, cnt as int),
            0 <= prox <= 255 * k,
        decreases ns@.len() - k,
    {
        let (ni, nj) = ns[k];
        assert(all_in(ns@, sz) ==> ns@[k as int].0 < sz && ns@[k as int].1 < sz);
        assert(b[ni as int] == board@[ni as int]@);
        let nc = board[ni][nj];
        let hit = if mine {
            nc.owner.is_some() && nc.owner != Some(player)
        } else {
            nc.owner == Some(player)
        };
        if hit {
            prox = prox + cnt;
        }
        k += 1;
    }
    prox
}

/// The positional value of square `(i, j)`.
fn pos_val_exec(i: usize, j: usize, sz: usize) -> (r: i32)
    requires
        i < sz,
        j < sz,
        sz <= 256,
    ensures
        r == pos_val(i, j, sz),
        0 <= r <= 4,
{
    let d = qdist_exec(i, sz) + qdist_exec(j, sz);
    if 4 - d > 0 { 4 - d } else { 0 }
}

/// The improved term of one square.
fn imp_cell_term(board: &Vec<Vec<Cell>>, sz: usize, i: usize, j: usize, player: usize, border_mode: BorderMode, cap_mode: CapMode) -> (r: i32)
    requires
        wf(bview(board), sz as int),
        i < sz,
        j < sz,
        sz <= 256,
    ensures
        r == imp_term(bview(board), sz, i, j, player, border_mode, cap_mode),
        -4854 <= r <= 4854,
{
    let ghost b = bview(board);
    assert(b[i as int] == board@[i as int]@);
    let c = board[i][j];
    match c.owner {
        None => 0,
        Some(p) => {
            let mine = p == player;
            let crit = crit_level(i, j, sz, border_mode, cap_mode) as i32;
            let cnt = c.count as i32;
            let threat: i32 = if cnt >= crit {
                cnt * 5
            } else if cnt >= crit - 1 {
                2
            } else {
                0
            };
            let pv = pos_val_exec(i, j, sz);
            let ns = nbrs_with_mode(i, j, sz, border_mode);
            proof {
                if border_mode != BorderMode::Wrap {
                    assert(ns@.len() <= 4);
                }
            }
            let prox = prox_exec(board, sz, &ns, player, mine, cnt);
            let t = 2 * cnt + 1 + threat + 2 * pv + 3 * prox;
            if mine { t } else { -t }
        },
    }
}

/// The improved terms of one row.
fn imp_row(board: &Vec<Vec<Cell>>, sz: usize, i: usize, player: usize, border_mode: BorderMode, cap_mode: CapMode) -> (r: i32)
    requires
        wf(bview(board), sz as int),
        i < sz,
        sz <= 256,
    ensures
        r == imp_row_sum(bview(board), sz, i, sz as nat, player, border_mode, cap_mode),
        -1242624 <= r <= 1242624,
{
    let mut acc: i32 = 0;
    let mut j: usize = 0;
    while j < sz
        invariant
            wf(bview(board), sz as int),
            i < sz,
            sz <= 256,
            0 <= j <= sz,
            acc == imp_row_sum(bview(board), sz, i, j as nat, player, border_mode, cap_mode),
            -4854 * j <= acc <= 4854 * j,
        decreases sz - j,
    {
        let t = imp_cell_term(board, sz, i, j, player, border_mode, cap_mode);
        acc = acc + t;
        j += 1;
    }
    acc
}

/// Improved evaluation: the hand-written terms with position, threat-proximity and
/// threshold-aware threat weights, with a small board-dependent perturbation in the
/// opening.
pub fn eval_board_improved(
    board: &Vec<Vec<Cell>>,
    player: usize,
    game_count: u32,
    border_mode: BorderMode,
    cap_mode: CapMode,
    user_random_scale: u32,
) -> (r: i32)
    requires
        wf(bview(board), board@.len() as int),
        board@.len() <= 256,
    ensures
        r == sp_eval_improved(bview(board), player, game_count, border_mode, cap_mode, user_random_scale, board_hash(bview(board), board@.len() as nat)),
        -400000000 <= r <= 400000000,
{
    let sz = board.len();
    assert(bview(board).len() == sz);
    let mut base: i32 = 0;
    let mut i: usize = 0;
    while i < sz
        invariant
            sz == board@.len(),
            wf(bview(board), sz as int),
            sz <= 256,
            0 <= i <= sz,
            base == imp_sum(bview(board), sz, i as nat, player, border_mode, cap_mode),
            -1242624 * i <= base <= 1242624 * i,
        decreases sz - i,
    {
        let r = imp_row(board, sz, i, player, border_mode, cap_mode);
        base = base + r;
        i += 1;
    }
    let u: i32 = if user_random_scale > 30 { 30 } else { user_random_scale as i32 };
    let rs: i32 = if game_count < 3 {
        40
    } else if game_count < 5 {
        let t = (game_count - 2) as i32;
        let m: i32 = if t == 1 { 40 - u } else { 2 * (40 - u) };
        40 - m / 2
    } else {
        u
    };
    assert(rs == imp_scale(game_count, user_random_scale));
    if rs > 0 {
        let h = hash_board(board);
        let rnd = (h % 100) as i32;
        assert(0 <= rnd * rs <= 3960) by (nonlinear_arith)
            requires
                0 <= rnd < 100,
                0 < rs <= 40,
        ;
        base + rnd * rs / 100 - rs / 2
    } else {
        base
    }
}


// ─── dispatch ───

/// The learned evaluation of a board, which the library leaves to its caller. An
/// implementation promises (unchecked: its model is floating point, outside the
/// library) that its score depends on nothing but the model and the arguments.
pub trait MlScore {
    /// The model's score of the board `b` for `player` under the modes `bm` and `cm`.
    /// The library does not know the model (floating point, outside it); it knows only
    /// that the score is fixed by the model and these arguments: one value for each.
    closed spec fn ml_value(&self, b: Seq<Seq<Cell>>, player: usize, bm: BorderMode, cm: CapMode) -> int {
        choose|v: int| model_scores(self, b, player, bm, cm, v)
    }

    /// The model's score of the board for `player`, in search units: `ml_value` of
    /// the board, the player and the modes.
    fn ml_score(&self, board: &Vec<Vec<Cell>>, player: usize, border_mode: BorderMode, cap_mode: CapMode) -> (r: i32)
        ensures
            r as int == self.ml_value(bview(board), player, border_mode, cap_mode),
    ;
}

/// Holds of every value: what `ml_value` chooses its score by. Naming the model and
/// the arguments here makes the chosen score one value for each model, board,
/// player and pair of modes, a value the library does not know.
#[verifier::opaque]
pub open spec fn model_scores<S: ?Sized>(model: &S, b: Seq<Seq<Cell>>, player: usize, bm: BorderMode, cm: CapMode, v: int) -> bool {
    true
}

/// The learned score of `ml` under the modes `bm` and `cm`, as a function of the
/// board and the player.
pub open spec fn model_fn<M: MlScore>(ml: M, bm: BorderMode, cm: CapMode) -> spec_fn(Seq<Seq<Cell>>, usize) -> int {
    |b: Seq<Seq<Cell>>, p: usize| ml.ml_value(b, p, bm, cm)
}

/// Division by three, rounding toward zero.
pub open spec fn tdiv3(x: int) -> int {
    if x >= 0 { x / 3 } else { -((-x) / 3) }
}

/// The mixed score: two thirds of the model's score and one third of the improved
/// score.
pub open spec fn ml_mix(m: int, hand: int) -> int {
    tdiv3(2 * m + hand)
}

/// The evaluation a search uses: with the learned model (scoring by `model`), the
/// mix of its score and the improved score; without it, the hand-written score.
pub open spec fn eval_value(
    b: Seq<Seq<Cell>>,
    player: usize,
    game_count: u32,
    use_ml_eval: bool,
    bm: BorderMode,
    cm: CapMode,
    user: u32,
    model: spec_fn(Seq<Seq<Cell>>, usize) -> int,
) -> int {
    if use_ml_eval {
        ml_mix(model(b, player), sp_eval_improved(b, player, game_count, bm, cm, user, board_hash(b, b.len() as nat)))
    } else {
        sp_eval_handcraft(b, player, game_count, cm, user, board_hash(b, b.len() as nat))
    }
}

/// Two thirds of the learned score and one third of the hand-written one, rounded
/// toward zero.
pub fn ml_blend(ml: i32, hand: i32) -> (r: i32)
    requires
        -400000000 <= hand <= 400000000,
    ensures
        r == ml_mix(ml as int, hand as int),
{
    let x: i64 = 2 * (ml as i64) + (hand as i64);
    let q: i64 = if x >= 0 { x / 3 } else { -((-x) / 3) };
    q as i32
}

/// The evaluation of the board for `player`: with `use_ml_eval`, two thirds of the
/// learned score and one third of the improved score; otherwise the hand-written score.
pub fn eval_board<M: MlScore>(
    board: &Vec<Vec<Cell>>,
    player: usize,
    game_count: u32,
    use_ml_eval: bool,
    border_mode: BorderMode,
    cap_mode: CapMode,
    user_random_scale: u32,
    ml: &M,
) -> (r: i32)
    requires
        wf(bview(board), board@.len() as int),
        board@.len() <= 256,
    ensures
        r as int == eval_value(
            bview(board),
            player,
            game_count,
            use_ml_eval,
            border_mode,
            cap_mode,
            user_random_scale,
            model_fn(*ml, border_mode, cap_mode),
        ),
        -1600000000 <= r <= 1600000000,
{
    if use_ml_eval {
        let m = ml.ml_score(board, player, border_mode, cap_mode);
        let h = eval_board_improved(board, player, game_count, border_mode, cap_mode, user_random_scale);
        ml_blend(m, h)
    } else {
        let ghost b = bview(board);
        proof {
            assert(small_board(b)) by {
                assert forall|i: int| 0 <= i < b.len() implies (#[trigger] b[i]).len() <= 256 by {
                    assert(b[i].len() == b.len());
                }
            }
        }
        eval_board_handcraft(board, player, game_count, border_mode, cap_mode, user_random_scale)
    }
}

/// Whether every piece of the board belongs to `p` or to `q`.
pub open spec fn held_by_two(b: Seq<Seq<Cell>>, p: usize, q: usize) -> bool {
    forall|i: int, j: int| 0 <= i < b.len() && 0 <= j < b[i].len() ==>
        (#[trigger] b[i][j]).owner is None || b[i][j].owner == Some(p) || b[i][j].owner == Some(q)
}

proof fn lemma_hand_row_sum_zero_sum(b: Seq<Seq<Cell>>, i: int, m: nat, p: usize, q: usize, cm: CapMode)
    requires
        p != q,
        held_by_two(b, p, q),
        0 <= i < b.len(),
        m <= b[i].len(),
    ensures
        hand_row_sum(b, i, m, p, cm) == -hand_row_sum(b, i, m, q, cm),
    decreases m,
{
    if m > 0 {
        lemma_hand_row_sum_zero_sum(b, i, (m - 1) as nat, p, q, cm);
        let c = b[i][m - 1];
        assert(c.owner is None || c.owner == Some(p) || c.owner == Some(q));
    }
}

proof fn lemma_hand_sum_rows_zero_sum(b: Seq<Seq<Cell>>, n: nat, p: usize, q: usize, cm: CapMode)
    requires
        p != q,
        held_by_two(b, p, q),
        n <= b.len(),
    ensures
        hand_sum(b, n, p, cm) == -hand_sum(b, n, q, cm),
    decreases n,
{
    if n > 0 {
        lemma_hand_sum_rows_zero_sum(b, (n - 1) as nat, p, q, cm);
        lemma_hand_row_sum_zero_sum(b, n - 1, b[n - 1].len(), p, q, cm);
    }
}

/// On a board where every piece belongs to one of two players, the hand-written
/// material of one is the negation of the other's: the hand-written evaluation of
/// two players is zero-sum but for its perturbation, which does not depend on the
/// player.
pub proof fn lemma_hand_eval_zero_sum(b: Seq<Seq<Cell>>, p: usize, q: usize, game_count: u32, cm: CapMode, user: u32, h: u64)
    requires
        p != q,
        held_by_two(b, p, q),
    ensures
        hand_sum(b, b.len(), p, cm) == -hand_sum(b, b.len(), q, cm),
        sp_eval_handcraft(b, p, game_count, cm, user, h) - hand_sum(b, b.len(), p, cm)
            == sp_eval_handcraft(b, q, game_count, cm, user, h) - hand_sum(b, b.len(), q, cm),
{
    lemma_hand_sum_rows_zero_sum(b, b.len(), p, q, cm);
}

proof fn lemma_nbrs_mode_in(i: usize, j: usize, sz: usize, bm: BorderMode)
    requires
        i < sz,
        j < sz,
    ensures
        all_in(sp_nbrs_with_mode(i, j, sz, bm), sz),
{
    let ns = sp_nbrs_with_mode(i, j, sz, bm);
    assert forall|k: int| 0 <= k < ns.len() implies (#[trigger] ns[k]).0 < sz && ns[k].1 < sz by {}
}

proof fn lemma_prox_two(b: Seq<Seq<Cell>>, ns: Seq<(usize, usize)>, n: nat, p: usize, q: usize, c: int, sz: usize)
    requires
        p != q,
        held_by_two(b, p, q),
        wf(b, sz as int),
        all_in(ns, sz),
        n <= ns.len(),
    ensures
        prox_sum(b, ns, n, p, true, c) == prox_sum(b, ns, n, q, false, c),
        prox_sum(b, ns, n, q, true, c) == prox_sum(b, ns, n, p, false, c),
    decreases n,
{
    if n > 0 {
        lemma_prox_two(b, ns, (n - 1) as nat, p, q, c, sz);
        let t = ns[n - 1];
        assert(t.0 < sz && t.1 < sz);
        let nc = b[t.0 as int][t.1 as int];
        assert(nc.owner is None || nc.owner == Some(p) || nc.owner == Some(q));
    }
}

proof fn lemma_imp_row_two(b: Seq<Seq<Cell>>, sz: usize, i: usize, m: nat, p: usize, q: usize, bm: BorderMode, cm: CapMode)
    requires
        p != q,
        held_by_two(b, p, q),
        wf(b, sz as int),
        i < sz,
        m <= sz,
    ensures
        imp_row_sum(b, sz, i, m, p, bm, cm) == -imp_row_sum(b, sz, i, m, q, bm, cm),
    decreases m,
{
    if m > 0 {
        lemma_imp_row_two(b, sz, i, (m - 1) as nat, p, q, bm, cm);
        let j = (m - 1) as usize;
        let c = b[i as int][j as int];
        assert(c.owner is None || c.owner == Some(p) || c.owner == Some(q));
        let ns = sp_nbrs_with_mode(i, j, sz, bm);
        lemma_nbrs_mode_in(i, j, sz, bm);
        lemma_prox_two(b, ns, ns.len(), p, q, c.count as int, sz);
    }
}

proof fn lemma_imp_sum_two(b: Seq<Seq<Cell>>, sz: usize, n: nat, p: usize, q: usize, bm: BorderMode, cm: CapMode)
    requires
        p != q,
        held_by_two(b, p, q),
        wf(b, sz as int),
        n <= sz,
    ensures
        imp_sum(b, sz, n, p, bm, cm) == -imp_sum(b, sz, n, q, bm, cm),
    decreases n,
{
    if n > 0 {
        lemma_imp_sum_two(b, sz, (n - 1) as nat, p, q, bm, cm);
        lemma_imp_row_two(b, sz, (n - 1) as usize, sz as nat, p, q, bm, cm);
    }
}

/// On a square board where every piece belongs to one of two players, the improved
/// material of one is the negation of the other's: the improved evaluation of two
/// players is zero-sum but for its perturbation, which does not depend on the player.
pub proof fn lemma_improved_eval_zero_sum(
    b: Seq<Seq<Cell>>,
    p: usize,
    q: usize,
    game_count: u32,
    bm: BorderMode,
    cm: CapMode,
    user: u32,
    h: u64,
)
    requires
        p != q,
        held_by_two(b, p, q),
        wf(b, b.len() as int),
        b.len() <= usize::MAX,
    ensures
        imp_sum(b, b.len() as usize, b.len(), p, bm, cm) == -imp_sum(b, b.len() as usize, b.len(), q, bm, cm),
        sp_eval_improved(b, p, game_count, bm, cm, user, h) - imp_sum(b, b.len() as usize, b.len(), p, bm, cm)
            == sp_eval_improved(b, q, game_count, bm, cm, user, h) - imp_sum(b, b.len() as usize, b.len(), q, bm, cm),
{
    lemma_imp_sum_two(b, b.len() as usize, b.len(), p, q, bm, cm);
}

} // verus!
