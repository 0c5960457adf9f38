use crate::board::{
    bview, cell_threshold, crit_level, lex_lt, nbrs_with_mode, on_corner, on_edge, owns_any, sp_cell_threshold,
    sp_nbrs_with_mode, wf, BorderMode, CapMode, Cell,
};
use crate::rng::{rng_thread, thread_below_usize};
use rand::rngs::ThreadRng;
use crate::search::{first_move_center, first_move_spec};
use vstd::prelude::*;

verus! {

// ─── neighbourhood counts ───

/// The opponent pieces among the first `n` squares of `ns`: squares owned by another
/// player, and when `level` is given, holding exactly that many pieces.
pub open spec fn opp_count(b: Seq<Seq<Cell>>, ns: Seq<(usize, usize)>, n: nat, player: usize, level: Option<u8>) -> int
    decreases n,
{
    if n == 0 {
        0
    } else {
        let nc = b[ns[n - 1].0 as int][ns[n - 1].1 as int];
        let hit = nc.owner is Some && nc.owner != Some(player) && match level {
            Some(l) => nc.count == l,
            None => true,
        };
        opp_count(b, ns, (n - 1) as nat, player, level) + if hit { 1int } else { 0int }
    }
}

/// The opponent squares next to `m` (under the border mode) with `level` pieces,
/// or with any number when `level` is `None`.
pub open spec fn opp_around(b: Seq<Seq<Cell>>, sz: usize, m: (usize, usize), player: usize, level: Option<u8>, bm: BorderMode) -> int {
    let ns = sp_nbrs_with_mode(m.0, m.1, sz, bm);
    opp_count(b, ns, ns.len(), player, level)
}

proof fn lemma_opp_count_bounds(b: Seq<Seq<Cell>>, ns: Seq<(usize, usize)>, n: nat, player: usize, level: Option<u8>)
    ensures
        0 <= opp_count(b, ns, n, player, level) <= n,
    decreases n,
{
    if n > 0 {
        lemma_opp_count_bounds(b, ns, (n - 1) as nat, player, level);
    }
}

/// The opponent squares among the listed ones, at `level` when one is given.
fn opp_count_exec(board: &Vec<Vec<Cell>>, sz: usize, ns: &Vec<(usize, usize)>, player: usize, level: Option<u8>) -> (r: i32)
    requires
        wf(bview(board), sz as int),
        forall|k: int| 0 <= k < ns@.len() ==> (#[trigger] ns@[k]).0 < sz && ns@[k].1 < sz,
        ns@.len() <= 4,
    ensures
        r == opp_count(bview(board), ns@, ns@.len() as nat, player, level),
        0 <= r <= 4,
{
    let ghost b = bview(board);
    let mut cnt: i32 = 0;
    let mut k: usize = 0;
    while k < ns.len()
        invariant
            b == bview(board),
            wf(b, sz as int),
            forall|t: int| 0 <= t < ns@.len() ==> (#[trigger] ns@[t]).0 < sz && ns@[t].1 < sz,
            ns@.len() <= 4,
            0 <= k <= ns@.len(),
            cnt == opp_count(b, ns@, k as nat, player, level),
            0 <= cnt <= k,
        decreases ns@.len() - k,
    {
        let (ni, nj) = ns[k];
        assert(ns@[k as int].0 < sz && ns@[k as int].1 < sz);
        assert(b[ni as int] == board@[ni as int]@);
        let nc = board[ni][nj];
        let lv_ok = match level {
            Some(l) => nc.count == l,
            None => true,
        };
        if nc.owner.is_some() && nc.owner != Some(player) && lv_ok {
            cnt += 1;
        }
        k += 1;
    }
    cnt
}

/// The neighbours of `(i, j)` under the border mode, with their bounds.
fn nbrs_checked(i: usize, j: usize, sz: usize, border_mode: BorderMode) -> (r: Vec<(usize, usize)>)
    requires
        i < sz,
        j < sz,
    ensures
        r@ == sp_nbrs_with_mode(i, j, sz, border_mode),
        r@.len() <= 4,
        forall|k: int| 0 <= k < r@.len() ==> (#[trigger] r@[k]).0 < sz && r@[k].1 < sz,
{
    let ns = nbrs_with_mode(i, j, sz, border_mode);
    proof {
        if border_mode != BorderMode::Wrap {
            assert(ns@.len() <= 4);
        }
    }
    ns
}

/// The opponent squares next to `(i, j)` that hold exactly `level` pieces.
pub fn count_opponent_level_around(
    board: &Vec<Vec<Cell>>,
    sz: usize,
    i: usize,
    j: usize,
    player: usize,
    level: u8,
    border_mode: BorderMode,
) -> (r: i32)
    requires
        wf(bview(board), sz as int),
        i < sz,
        j < sz,
    ensures
        r == opp_around(bview(board), sz, (i, j), player, Some(level), border_mode),
        0 <= r <= 4,
{
    let ns = nbrs_checked(i, j, sz, border_mode);
    opp_count_exec(board, sz, &ns, player, Some(level))
}

/// Whether an opponent square next to `(i, j)` holds exactly `level` pieces.
pub fn has_opponent_level_near(
    board: &Vec<Vec<Cell>>,
    sz: usize,
    i: usize,
    j: usize,
    player: usize,
    level: u8,
    border_mode: BorderMode,
) -> (r: bool)
    requires
        wf(bview(board), sz as int),
        i < sz,
        j < sz,
    ensures
        r == (opp_around(bview(board), sz, (i, j), player, Some(level), border_mode) > 0),
{
    let ns = nbrs_checked(i, j, sz, border_mode);
    let ghost b = bview(board);
    let mut k: usize = 0;
    while k < ns.len()
        invariant
            b == bview(board),
            wf(b, sz as int),
            forall|t: int| 0 <= t < ns@.len() ==> (#[trigger] ns@[t]).0 < sz && ns@[t].1 < sz,
            ns@ == sp_nbrs_with_mode(i, j, sz, border_mode),
            0 <= k <= ns@.len(),
            opp_count(b, ns@, k as nat, player, Some(level)) == 0,
        decreases ns@.len() - k,
    {
        let (ni, nj) = ns[k];
        assert(ns@[k as int].0 < sz && ns@[k as int].1 < sz);
        assert(b[ni as int] == board@[ni as int]@);
        let nc = board[ni][nj];
        if nc.owner.is_some() && nc.owner != Some(player) && nc.count == level {
            proof {
                assert(b[ni as int][nj as int] == nc);
                assert(opp_count(b, ns@, (k + 1) as nat, player, Some(level)) == 1);
                lemma_opp_count_prefix(b, ns@, (k + 1) as nat, ns@.len() as nat, player, Some(level));
                assert(opp_around(b, sz, (i, j), player, Some(level), border_mode) == opp_count(b, ns@, ns@.len() as nat, player, Some(level)));
            }
            return true;
        }
        k += 1;
    }
    false
}

/// Counting more squares never gives fewer.
proof fn lemma_opp_count_prefix(b: Seq<Seq<Cell>>, ns: Seq<(usize, usize)>, k: nat, n: nat, player: usize, level: Option<u8>)
    requires
        k <= n,
    ensures
        opp_count(b, ns, k, player, level) <= opp_count(b, ns, n, player, level),
    decreases n,
{
    if k < n {
        lemma_opp_count_prefix(b, ns, k, (n - 1) as nat, player, level);
    }
}

/// The opponent squares next to `(i, j)`.
pub fn count_any_opponent_around(
    board: &Vec<Vec<Cell>>,
    sz: usize,
    i: usize,
    j: usize,
    player: usize,
    border_mode: BorderMode,
) -> (r: i32)
    requires
        wf(bview(board), sz as int),
        i < sz,
        j < sz,
    ensures
        r == opp_around(bview(board), sz, (i, j), player, None, border_mode),
        0 <= r <= 4,
{
    let ns = nbrs_checked(i, j, sz, border_mode);
    opp_count_exec(board, sz, &ns, player, None)
}

// ─── the strategy ───

/// A square of `player`.
pub open spec fn is_mine(b: Seq<Seq<Cell>>, sz: usize, player: usize, m: (usize, usize)) -> bool {
    m.0 < sz && m.1 < sz && b[m.0 as int][m.1 as int].owner == Some(player)
}

/// The critical count of a square: one piece below its threshold.
pub open spec fn crit_of(m: (usize, usize), sz: usize, bm: BorderMode, cm: CapMode) -> u8 {
    (sp_cell_threshold(m.0, m.1, sz, bm, cm) - 1) as u8
}

/// `crit - d`, stopping at zero.
pub open spec fn below_crit(m: (usize, usize), sz: usize, bm: BorderMode, cm: CapMode, d: u8) -> u8 {
    let c = crit_of(m, sz, bm, cm);
    if c >= d { (c - d) as u8 } else { 0 }
}

/// A square of `player` holding `d` pieces fewer than its critical count.
pub open spec fn at_level(b: Seq<Seq<Cell>>, sz: usize, player: usize, bm: BorderMode, cm: CapMode, d: u8, m: (usize, usize)) -> bool {
    is_mine(b, sz, player, m) && b[m.0 as int][m.1 as int].count == below_crit(m, sz, bm, cm, d)
}

/// The critical opponent squares next to `m` (critical by the count of `m`).
pub open spec fn crit_hits(b: Seq<Seq<Cell>>, sz: usize, player: usize, bm: BorderMode, cm: CapMode, m: (usize, usize)) -> int {
    opp_around(b, sz, m, player, Some(crit_of(m, sz, bm, cm)), bm)
}

/// A square one below critical with no critical opponent next to it.
pub open spec fn is_safe_sub(b: Seq<Seq<Cell>>, sz: usize, player: usize, bm: BorderMode, cm: CapMode, m: (usize, usize)) -> bool {
    at_level(b, sz, player, bm, cm, 1, m) && crit_hits(b, sz, player, bm, cm, m) == 0
}

/// Preference among safe squares: three on an edge, five more in a corner, five off
/// per opponent square next to it.
pub open spec fn safe_score(b: Seq<Seq<Cell>>, sz: usize, player: usize, bm: BorderMode, m: (usize, usize)) -> int {
    (if on_edge(m.0, m.1, sz) { 3int } else { 0int }) + (if on_corner(m.0, m.1, sz) { 5int } else { 0int })
        - 5 * opp_around(b, sz, m, player, None, bm)
}

/// Preference among squares two below critical: three off per opponent next to it.
pub open spec fn calm_score(b: Seq<Seq<Cell>>, sz: usize, player: usize, bm: BorderMode, m: (usize, usize)) -> int {
    -3 * opp_around(b, sz, m, player, None, bm)
}

/// Preference for building a threat: five per opponent next to it, two on an edge.
pub open spec fn threat_score(b: Seq<Seq<Cell>>, sz: usize, player: usize, bm: BorderMode, m: (usize, usize)) -> int {
    5 * opp_around(b, sz, m, player, None, bm) + (if on_edge(m.0, m.1, sz) { 2int } else { 0int })
}

/// A square of `player` below its threshold.
pub open spec fn can_play(b: Seq<Seq<Cell>>, sz: usize, player: usize, bm: BorderMode, cm: CapMode, m: (usize, usize)) -> bool {
    is_mine(b, sz, player, m) && (b[m.0 as int][m.1 as int].count as u32) < sp_cell_threshold(m.0, m.1, sz, bm, cm)
}

/// `m` is a candidate with the largest `f` among the candidates.
pub open spec fn best_of(cand: spec_fn((usize, usize)) -> bool, f: spec_fn((usize, usize)) -> int, m: (usize, usize)) -> bool {
    cand(m) && forall|c: (usize, usize)| #[trigger] cand(c) ==> f(c) <= f(m)
}

/// The moves the rule-based player may choose, rule by rule: the centre pick for a
/// first move; else a critical square with the most critical opponents next to it,
/// when some has one; else the best safe square one below critical; else the best
/// square two below critical; else the best square one below critical for a threat;
/// else any playable square; else the first own square in row-major order.
pub open spec fn strategy_pick(b: Seq<Seq<Cell>>, sz: usize, player: usize, bm: BorderMode, cm: CapMode, r: Option<(usize, usize)>) -> bool {
    let lvl0 = |m: (usize, usize)| at_level(b, sz, player, bm, cm, 0, m);
    let lvl1 = |m: (usize, usize)| at_level(b, sz, player, bm, cm, 1, m);
    let lvl2 = |m: (usize, usize)| at_level(b, sz, player, bm, cm, 2, m);
    let safe = |m: (usize, usize)| is_safe_sub(b, sz, player, bm, cm, m);
    if !owns_any(b, player) {
        first_move_spec(b, sz, r)
    } else if exists|m: (usize, usize)| #[trigger] at_level(b, sz, player, bm, cm, 0, m) && crit_hits(b, sz, player, bm, cm, m) >= 1 {
        r matches Some(m) && best_of(lvl0, |c: (usize, usize)| rule_score(b, sz, player, bm, cm, 0, c), m)
    } else if exists|m: (usize, usize)| #[trigger] is_safe_sub(b, sz, player, bm, cm, m) {
        r matches Some(m) && best_of(safe, |c: (usize, usize)| rule_score(b, sz, player, bm, cm, 1, c), m)
    } else if exists|m: (usize, usize)| #[trigger] at_level(b, sz, player, bm, cm, 2, m) {
        r matches Some(m) && best_of(lvl2, |c: (usize, usize)| rule_score(b, sz, player, bm, cm, 2, c), m)
    } else if exists|m: (usize, usize)| #[trigger] at_level(b, sz, player, bm, cm, 1, m) {
        r matches Some(m) && best_of(lvl1, |c: (usize, usize)| rule_score(b, sz, player, bm, cm, 3, c), m)
    } else if exists|m: (usize, usize)| #[trigger] can_play(b, sz, player, bm, cm, m) {
        r matches Some(m) && can_play(b, sz, player, bm, cm, m)
    } else {
        r matches Some(m) && is_mine(b, sz, player, m)
            && forall|c: (usize, usize)| is_mine(b, sz, player, c) ==> !lex_lt(c, m)
    }
}

/// The squares of `player`, in row-major order.
fn own_squares(board: &Vec<Vec<Cell>>, sz: usize, player: usize) -> (r: Vec<(usize, usize)>)
    requires
        wf(bview(board), sz as int),
    ensures
        forall|a: int, c: int| 0 <= a < c < r@.len() ==> lex_lt(#[trigger] r@[a], #[trigger] r@[c]),
        forall|m: (usize, usize)| r@.contains(m) <==> is_mine(bview(board), sz, player, m),
{
    let ghost b = bview(board);
    let mut mine: Vec<(usize, usize)> = Vec::new();
    let mut i: usize = 0;
    while i < sz
        invariant
            b == bview(board),
            wf(b, sz as int),
            0 <= i <= sz,
            forall|a: int, c: int| 0 <= a < c < mine@.len() ==> lex_lt(#[trigger] mine@[a], #[trigger] mine@[c]),
            forall|k: int| 0 <= k < mine@.len() ==> is_mine(b, sz, player, #[trigger] mine@[k]),
            forall|k: int| 0 <= k < mine@.len() ==> (#[trigger] mine@[k]).0 < i,
            forall|m: (usize, usize)| is_mine(b, sz, player, m) && m.0 < i ==> mine@.contains(m),
        decreases sz - i,
    {
        let mut j: usize = 0;
        while j < sz
            invariant
                b == bview(board),
                wf(b, sz as int),
                0 <= i < sz,
                0 <= j <= sz,
                forall|a: int, c: int| 0 <= a < c < mine@.len() ==> lex_lt(#[trigger] mine@[a], #[trigger] mine@[c]),
                forall|k: int| 0 <= k < mine@.len() ==> is_mine(b, sz, player, #[trigger] mine@[k]),
                forall|k: int| 0 <= k < mine@.len() ==> lex_lt(#[trigger] mine@[k], (i, j)),
                forall|m: (usize, usize)| is_mine(b, sz, player, m) && lex_lt(m, (i, j)) ==> mine@.contains(m),
            decreases sz - j,
        {
            assert(b[i as int] == board@[i as int]@);
            let ghost old_mine = mine@;
            if board[i][j].owner == Some(player) {
                mine.push((i, j));
                assert forall|m: (usize, usize)| is_mine(b, sz, player, m) && lex_lt(m, (i, (j + 1) as usize)) implies mine@.contains(m) by {
                    if m == (i, j) {
                        assert(mine@[old_mine.len() as int] == m);
                    } else {
                        assert(old_mine.contains(m));
                        let t = choose|t: int| 0 <= t < old_mine.len() && old_mine[t] == m;
                        assert(mine@[t] == m);
                    }
                }
            }
            j += 1;
        }
        i += 1;
    }
    proof {
        assert forall|m: (usize, usize)| mine@.contains(m) implies is_mine(b, sz, player, m) by {
            let t = choose|t: int| 0 <= t < mine@.len() && mine@[t] == m;
        }
    }
    mine
}

/// The critical count of a square, as the rules compare it with piece counts.
fn crit_u8(i: usize, j: usize, sz: usize, border_mode: BorderMode, cap_mode: CapMode) -> (r: u8)
    requires
        sz >= 1,
    ensures
        r == crit_of((i, j), sz, border_mode, cap_mode),
        1 <= r <= 4,
{
    crit_level(i, j, sz, border_mode, cap_mode) as u8
}

/// The squares of `mine` holding `d` pieces fewer than critical.
fn filter_level(
    board: &Vec<Vec<Cell>>,
    sz: usize,
    player: usize,
    mine: &Vec<(usize, usize)>,
    d: u8,
    border_mode: BorderMode,
    cap_mode: CapMode,
) -> (r: Vec<(usize, usize)>)
    requires
        wf(bview(board), sz as int),
        sz >= 1,
        forall|m: (usize, usize)| mine@.contains(m) <==> is_mine(bview(board), sz, player, m),
    ensures
        forall|m: (usize, usize)| r@.contains(m) <==> at_level(bview(board), sz, player, border_mode, cap_mode, d, m),
{
    let ghost b = bview(board);
    let mut r: Vec<(usize, usize)> = Vec::new();
    let mut k: usize = 0;
    while k < mine.len()
        invariant
            b == bview(board),
            wf(b, sz as int),
            sz >= 1,
            forall|m: (usize, usize)| mine@.contains(m) <==> is_mine(b, sz, player, m),
            0 <= k <= mine@.len(),
            forall|m: (usize, usize)| r@.contains(m) <==> (at_level(b, sz, player, border_mode, cap_mode, d, m)
                && exists|t: int| 0 <= t < k && mine@[t] == m),
        decreases mine@.len() - k,
    {
        let m = mine[k];
        assert(mine@.contains(m));
        assert(b[m.0 as int] == board@[m.0 as int]@);
        let c = crit_u8(m.0, m.1, sz, border_mode, cap_mode);
        let want: u8 = if c >= d { c - d } else { 0 };
        let ghost old_r = r@;
        if board[m.0][m.1].count == want {
            r.push(m);
        }
        assert forall|x: (usize, usize)| r@.contains(x) <==> (at_level(b, sz, player, border_mode, cap_mode, d, x)
            && exists|t: int| 0 <= t < k + 1 && mine@[t] == x) by {
            if x == m {
                assert(mine@[k as int] == x);
                if board@[m.0 as int]@[m.1 as int].count == want {
                    assert(r@[old_r.len() as int] == x);
                }
            } else {
                if r@.contains(x) && !old_r.contains(x) {
                    let t = choose|t: int| 0 <= t < r@.len() && r@[t] == x;
                    assert(t < old_r.len() ==> old_r[t] == x);
                }
                if old_r.contains(x) {
                    let t = choose|t: int| 0 <= t < old_r.len() && old_r[t] == x;
                    assert(r@[t] == x);
                }
                if exists|t: int| 0 <= t < k + 1 && mine@[t] == x {
                    let t = choose|t: int| 0 <= t < k + 1 && mine@[t] == x;
                    assert(t < k);
                }
            }
        }
        k += 1;
    }
    proof {
        assert forall|m: (usize, usize)| r@.contains(m) <==> at_level(b, sz, player, border_mode, cap_mode, d, m) by {
            if at_level(b, sz, player, border_mode, cap_mode, d, m) {
                assert(mine@.contains(m));
                let t = choose|t: int| 0 <= t < mine@.len() && mine@[t] == m;
            }
        }
    }
    r
}

/// The squares of `src` (those one below critical) with no critical opponent next to them.
fn filter_safe(
    board: &Vec<Vec<Cell>>,
    sz: usize,
    player: usize,
    src: &Vec<(usize, usize)>,
    border_mode: BorderMode,
    cap_mode: CapMode,
) -> (r: Vec<(usize, usize)>)
    requires
        wf(bview(board), sz as int),
        sz >= 1,
        forall|m: (usize, usize)| src@.contains(m) <==> at_level(bview(board), sz, player, border_mode, cap_mode, 1, m),
    ensures
        forall|m: (usize, usize)| r@.contains(m) <==> is_safe_sub(bview(board), sz, player, border_mode, cap_mode, m),
{
    let ghost b = bview(board);
    let mut r: Vec<(usize, usize)> = Vec::new();
    let mut k: usize = 0;
    while k < src.len()
        invariant
            b == bview(board),
            wf(b, sz as int),
            sz >= 1,
            forall|m: (usize, usize)| src@.contains(m) <==> at_level(b, sz, player, border_mode, cap_mode, 1, m),
            0 <= k <= src@.len(),
            forall|m: (usize, usize)| r@.contains(m) <==> (is_safe_sub(b, sz, player, border_mode, cap_mode, m)
                && exists|t: int| 0 <= t < k && src@[t] == m),
        decreases src@.len() - k,
    {
        let m = src[k];
        assert(src@.contains(m));
        assert(b[m.0 as int] == board@[m.0 as int]@);
        let ghost old_r = r@;
        let lv = crit_u8(m.0, m.1, sz, border_mode, cap_mode);
        let near = has_opponent_level_near(board, sz, m.0, m.1, player, lv, border_mode);
        proof {
            lemma_opp_count_bounds(b, sp_nbrs_with_mode(m.0, m.1, sz, border_mode), sp_nbrs_with_mode(m.0, m.1, sz, border_mode).len(), player, Some(lv));
        }
        let keep = !near;
        if keep {
            r.push(m);
        }
        assert forall|x: (usize, usize)| r@.contains(x) <==> (is_safe_sub(b, sz, player, border_mode, cap_mode, x)
            && exists|t: int| 0 <= t < k + 1 && src@[t] == x) by {
            if x == m {
                assert(src@[k as int] == x);
                if keep {
                    assert(r@[old_r.len() as int] == x);
                }
            } else {
                if r@.contains(x) && !old_r.contains(x) {
                    let t = choose|t: int| 0 <= t < r@.len() && r@[t] == x;
                    assert(t < old_r.len() ==> old_r[t] == x);
                }
                if old_r.contains(x) {
                    let t = choose|t: int| 0 <= t < old_r.len() && old_r[t] == x;
                    assert(r@[t] == x);
                }
                if exists|t: int| 0 <= t < k + 1 && src@[t] == x {
                    let t = choose|t: int| 0 <= t < k + 1 && src@[t] == x;
                    assert(t < k);
                }
            }
        }
        k += 1;
    }
    proof {
        assert forall|m: (usize, usize)| r@.contains(m) <==> is_safe_sub(b, sz, player, border_mode, cap_mode, m) by {
            if is_safe_sub(b, sz, player, border_mode, cap_mode, m) {
                assert(src@.contains(m));
                let t = choose|t: int| 0 <= t < src@.len() && src@[t] == m;
            }
        }
    }
    r
}

/// The squares of `src` (the own squares) below their threshold.
fn filter_playable(
    board: &Vec<Vec<Cell>>,
    sz: usize,
    player: usize,
    src: &Vec<(usize, usize)>,
    border_mode: BorderMode,
    cap_mode: CapMode,
) -> (r: Vec<(usize, usize)>)
    requires
        wf(bview(board), sz as int),
        sz >= 1,
        forall|m: (usize, usize)| src@.contains(m) <==> is_mine(bview(board), sz, player, m),
    ensures
        forall|m: (usize, usize)| r@.contains(m) <==> can_play(bview(board), sz, player, border_mode, cap_mode, m),
{
    let ghost b = bview(board);
    let mut r: Vec<(usize, usize)> = Vec::new();
    let mut k: usize = 0;
    while k < src.len()
        invariant
            b == bview(board),
            wf(b, sz as int),
            sz >= 1,
            forall|m: (usize, usize)| src@.contains(m) <==> is_mine(b, sz, player, m),
            0 <= k <= src@.len(),
            forall|m: (usize, usize)| r@.contains(m) <==> (can_play(b, sz, player, border_mode, cap_mode, m)
                && exists|t: int| 0 <= t < k && src@[t] == m),
        decreases src@.len() - k,
    {
        let m = src[k];
        assert(src@.contains(m));
        assert(b[m.0 as int] == board@[m.0 as int]@);
        let ghost old_r = r@;
        let keep = (board[m.0][m.1].count as u32) < cell_threshold(m.0, m.1, sz, border_mode, cap_mode);
        if keep {
            r.push(m);
        }
        assert forall|x: (usize, usize)| r@.contains(x) <==> (can_play(b, sz, player, border_mode, cap_mode, x)
            && exists|t: int| 0 <= t < k + 1 && src@[t] == x) by {
            if x == m {
                assert(src@[k as int] == x);
                if keep {
                    assert(r@[old_r.len() as int] == x);
                }
            } else {
                if r@.contains(x) && !old_r.contains(x) {
                    let t = choose|t: int| 0 <= t < r@.len() && r@[t] == x;
                    assert(t < old_r.len() ==> old_r[t] == x);
                }
                if old_r.contains(x) {
                    let t = choose|t: int| 0 <= t < old_r.len() && old_r[t] == x;
                    assert(r@[t] == x);
                }
                if exists|t: int| 0 <= t < k + 1 && src@[t] == x {
                    let t = choose|t: int| 0 <= t < k + 1 && src@[t] == x;
                    assert(t < k);
                }
            }
        }
        k += 1;
    }
    proof {
        assert forall|m: (usize, usize)| r@.contains(m) <==> can_play(b, sz, player, border_mode, cap_mode, m) by {
            if can_play(b, sz, player, border_mode, cap_mode, m) {
                assert(src@.contains(m));
                let t = choose|t: int| 0 <= t < src@.len() && src@[t] == m;
            }
        }
    }
    r
}

/// The score of a square under a rule: `0` critical opponents next to it, `1` the
/// safe-square preference, `2` the calm-square preference, `3` the threat preference.
pub open spec fn rule_score(b: Seq<Seq<Cell>>, sz: usize, player: usize, bm: BorderMode, cm: CapMode, kind: u8, m: (usize, usize)) -> int {
    if kind == 0 {
        crit_hits(b, sz, player, bm, cm, m)
    } else if kind == 1 {
        safe_score(b, sz, player, bm, m)
    } else if kind == 2 {
        calm_score(b, sz, player, bm, m)
    } else {
        threat_score(b, sz, player, bm, m)
    }
}

/// The scores of the squares under a rule.
fn rule_scores(
    board: &Vec<Vec<Cell>>,
    sz: usize,
    player: usize,
    cands: &Vec<(usize, usize)>,
    kind: u8,
    border_mode: BorderMode,
    cap_mode: CapMode,
) -> (r: Vec<i64>)
    requires
        wf(bview(board), sz as int),
        sz >= 1,
        forall|t: int| 0 <= t < cands@.len() ==> (#[trigger] cands@[t]).0 < sz && cands@[t].1 < sz,
    ensures
        r@.len() == cands@.len(),
        forall|t: int| 0 <= t < cands@.len() ==> r@[t] == rule_score(bview(board), sz, player, border_mode, cap_mode, kind, #[trigger] cands@[t]),
{
    let mut r: Vec<i64> = Vec::new();
    let mut k: usize = 0;
    while k < cands.len()
        invariant
            wf(bview(board), sz as int),
            sz >= 1,
            forall|t: int| 0 <= t < cands@.len() ==> (#[trigger] cands@[t]).0 < sz && cands@[t].1 < sz,
            0 <= k <= cands@.len(),
            r@.len() == k,
            forall|t: int| 0 <= t < k ==> r@[t] == rule_score(bview(board), sz, player, border_mode, cap_mode, kind, #[trigger] cands@[t]),
        decreases cands@.len() - k,
    {
        let m = cands[k];
        assert(cands@[k as int].0 < sz);
        let (i, j) = m;
        let edge = i == 0 || i == sz - 1 || j == 0 || j == sz - 1;
        let corner = (i == 0 || i == sz - 1) && (j == 0 || j == sz - 1);
        let v: i64 = if kind == 0 {
            let lv = crit_u8(i, j, sz, border_mode, cap_mode);
            count_opponent_level_around(board, sz, i, j, player, lv, border_mode) as i64
        } else if kind == 1 {
            let near = count_any_opponent_around(board, sz, i, j, player, border_mode) as i64;
            (if edge { 3 } else { 0 }) + (if corner { 5 } else { 0 }) - near * 5
        } else if kind == 2 {
            let near = count_any_opponent_around(board, sz, i, j, player, border_mode) as i64;
            -near * 3
        } else {
            let near = count_any_opponent_around(board, sz, i, j, player, border_mode) as i64;
            near * 5 + (if edge { 2 } else { 0 })
        };
        r.push(v);
        k += 1;
    }
    r
}

/// The candidates with the largest score, and that score.
fn pick_best(
    cands: &Vec<(usize, usize)>,
    scores: &Vec<i64>,
    Ghost(cand): Ghost<spec_fn((usize, usize)) -> bool>,
    Ghost(f): Ghost<spec_fn((usize, usize)) -> int>,
) -> (r: (Vec<(usize, usize)>, i64))
    requires
        cands@.len() == scores@.len(),
        cands@.len() > 0,
        forall|m: (usize, usize)| #[trigger] cand(m) <==> cands@.contains(m),
        forall|t: int| 0 <= t < cands@.len() ==> scores@[t] == f(#[trigger] cands@[t]),
    ensures
        r.0@.len() > 0,
        forall|t: int| 0 <= t < r.0@.len() ==> best_of(cand, f, #[trigger] r.0@[t]),
        exists|m: (usize, usize)| #[trigger] cand(m) && f(m) == r.1,
        forall|m: (usize, usize)| #[trigger] cand(m) ==> f(m) <= r.1,
{
    let mut best: Vec<(usize, usize)> = Vec::new();
    best.push(cands[0]);
    let mut top: i64 = scores[0];
    let mut k: usize = 1;
    while k < cands.len()
        invariant
            cands@.len() == scores@.len(),
            forall|t: int| 0 <= t < cands@.len() ==> scores@[t] == f(#[trigger] cands@[t]),
            1 <= k <= cands@.len(),
            best@.len() > 0,
            exists|t: int| 0 <= t < k && f(cands@[t]) == top,
            forall|t: int| 0 <= t < k ==> f(#[trigger] cands@[t]) <= top,
            forall|u: int| 0 <= u < best@.len() ==> f(#[trigger] best@[u]) == top && exists|t: int| 0 <= t < k && cands@[t] == best@[u],
        decreases cands@.len() - k,
    {
        let sc = scores[k];
        let ghost old_best = best@;
        if sc > top {
            best = Vec::new();
            best.push(cands[k]);
            top = sc;
            assert(f(cands@[k as int]) == top);
        } else if sc == top {
            best.push(cands[k]);
            assert forall|u: int| 0 <= u < best@.len() implies f(#[trigger] best@[u]) == top && exists|t: int| 0 <= t < k + 1 && cands@[t] == best@[u] by {
                if u < old_best.len() {
                    assert(best@[u] == old_best[u]);
                } else {
                    assert(cands@[k as int] == best@[u]);
                }
            }
        }
        k += 1;
    }
    proof {
        assert forall|m: (usize, usize)| #[trigger] cand(m) implies f(m) <= top by {
            assert(cands@.contains(m));
            let t = choose|t: int| 0 <= t < cands@.len() && cands@[t] == m;
            assert(f(cands@[t]) <= top);
        }
        assert forall|u: int| 0 <= u < best@.len() implies best_of(cand, f, #[trigger] best@[u]) by {
            let t = choose|t: int| 0 <= t < cands@.len() && cands@[t] == best@[u];
            assert(cands@.contains(best@[u]));
        }
        let t = choose|t: int| 0 <= t < cands@.len() && f(cands@[t]) == top;
        assert(cands@.contains(cands@[t]));
        assert(cand(cands@[t]));
    }
    (best, top)
}

/// Picks one of the squares uniformly at random.
fn pick_random(rng: &mut ThreadRng, v: &Vec<(usize, usize)>) -> (r: (usize, usize))
    requires
        v@.len() > 0,
    ensures
        v@.contains(r),
{
    let k = thread_below_usize(rng, v.len());
    assert(v@[k as int] == v@[k as int]);
    v[k]
}

proof fn lemma_contains_all_in(v: Seq<(usize, usize)>, b: Seq<Seq<Cell>>, sz: usize, player: usize, pred: spec_fn((usize, usize)) -> bool)
    requires
        forall|m: (usize, usize)| v.contains(m) <==> #[trigger] pred(m),
        forall|m: (usize, usize)| #[trigger] pred(m) ==> is_mine(b, sz, player, m),
    ensures
        forall|t: int| 0 <= t < v.len() ==> (#[trigger] v[t]).0 < sz && v[t].1 < sz,
{
    assert forall|t: int| 0 <= t < v.len() implies (#[trigger] v[t]).0 < sz && v[t].1 < sz by {
        assert(v.contains(v[t]));
        assert(pred(v[t]));
    }
}

/// The rule-based player: no search, a fixed list of rules, random choice among the
/// squares a rule ranks best (see `strategy_pick`).
pub fn find_best_move_strategy(
    board: &Vec<Vec<Cell>>,
    sz: usize,
    player: usize,
    _eliminated: &[usize],
    _max_players: usize,
    _game_count: u32,
    _first_move_pos: Option<[usize; 2]>,
    border_mode: BorderMode,
    cap_mode: CapMode,
) -> (r: Option<(usize, usize)>)
    requires
        wf(bview(board), sz as int),
        1 <= sz <= 1000000,
    ensures
        strategy_pick(bview(board), sz, player, border_mode, cap_mode, r),
{
    let ghost b = bview(board);
    let bm = border_mode;
    let cm = cap_mode;
    let mine = own_squares(board, sz, player);
    proof {
        if owns_any(b, player) {
            let (i, j) = choose|i: int, j: int| 0 <= i < b.len() && 0 <= j < b[i].len() && #[trigger] b[i][j].owner == Some(player);
            assert(is_mine(b, sz, player, (i as usize, j as usize)));
            assert(mine@.contains((i as usize, j as usize)));
        }
        if mine@.len() > 0 {
            assert(mine@.contains(mine@[0]));
            assert(is_mine(b, sz, player, mine@[0]));
            assert(b[mine@[0].0 as int][mine@[0].1 as int].owner == Some(player));
        }
    }
    if mine.len() == 0 {
        return first_move_center(board, sz);
    }
    let mut rng = rng_thread();
    let ghost lvl0 = |m: (usize, usize)| at_level(b, sz, player, bm, cm, 0, m);
    let ghost lvl1 = |m: (usize, usize)| at_level(b, sz, player, bm, cm, 1, m);
    let ghost lvl2 = |m: (usize, usize)| at_level(b, sz, player, bm, cm, 2, m);
    let ghost safe = |m: (usize, usize)| is_safe_sub(b, sz, player, bm, cm, m);

    // 1. explode a critical square next to critical opponents
    let crits = filter_level(board, sz, player, &mine, 0, bm, cm);
    proof {
        lemma_contains_all_in(crits@, b, sz, player, lvl0);
    }
    if crits.len() > 0 {
        let hits = rule_scores(board, sz, player, &crits, 0, bm, cm);
        let (best, top) = pick_best(&crits, &hits, Ghost(lvl0), Ghost(|c: (usize, usize)| rule_score(b, sz, player, bm, cm, 0, c)));
        if top >= 1 {
            let m = pick_random(&mut rng, &best);
            proof {
                let u = choose|u: int| 0 <= u < best@.len() && best@[u] == m;
                assert(best_of(lvl0, |c: (usize, usize)| rule_score(b, sz, player, bm, cm, 0, c), best@[u]));
                assert(at_level(b, sz, player, bm, cm, 0, m) && crit_hits(b, sz, player, bm, cm, m) >= 1);
            }
            return Some(m);
        }
        proof {
            assert forall|m: (usize, usize)| #[trigger] at_level(b, sz, player, bm, cm, 0, m) implies crit_hits(b, sz, player, bm, cm, m) < 1 by {
                assert(lvl0(m));
            }
        }
    } else {
        proof {
            assert forall|m: (usize, usize)| #[trigger] at_level(b, sz, player, bm, cm, 0, m) implies crit_hits(b, sz, player, bm, cm, m) < 1 by {
                assert(crits@.contains(m));
            }
        }
    }

    // 2. a safe step towards critical
    let subcrits = filter_level(board, sz, player, &mine, 1, bm, cm);
    let safe_sub = filter_safe(board, sz, player, &subcrits, bm, cm);
    proof {
        lemma_contains_all_in(subcrits@, b, sz, player, lvl1);
        lemma_contains_all_in(safe_sub@, b, sz, player, safe);
    }
    if safe_sub.len() > 0 {
        let sc = rule_scores(board, sz, player, &safe_sub, 1, bm, cm);
        let (best, _top) = pick_best(&safe_sub, &sc, Ghost(safe), Ghost(|c: (usize, usize)| rule_score(b, sz, player, bm, cm, 1, c)));
        let m = pick_random(&mut rng, &best);
        proof {
            let u = choose|u: int| 0 <= u < best@.len() && best@[u] == m;
            assert(best_of(safe, |c: (usize, usize)| rule_score(b, sz, player, bm, cm, 1, c), best@[u]));
            assert(is_safe_sub(b, sz, player, bm, cm, safe_sub@[0])) by {
                assert(safe_sub@.contains(safe_sub@[0]));
            }
        }
        return Some(m);
    }
    proof {
        assert forall|m: (usize, usize)| !#[trigger] is_safe_sub(b, sz, player, bm, cm, m) by {
            if is_safe_sub(b, sz, player, bm, cm, m) {
                assert(safe_sub@.contains(m));
            }
        }
    }

    // 3. a calmer step, two below critical
    let sub2 = filter_level(board, sz, player, &mine, 2, bm, cm);
    proof {
        lemma_contains_all_in(sub2@, b, sz, player, lvl2);
    }
    if sub2.len() > 0 {
        let sc = rule_scores(board, sz, player, &sub2, 2, bm, cm);
        let (best, _top) = pick_best(&sub2, &sc, Ghost(lvl2), Ghost(|c: (usize, usize)| rule_score(b, sz, player, bm, cm, 2, c)));
        let m = pick_random(&mut rng, &best);
        proof {
            let u = choose|u: int| 0 <= u < best@.len() && best@[u] == m;
            assert(best_of(lvl2, |c: (usize, usize)| rule_score(b, sz, player, bm, cm, 2, c), best@[u]));
            assert(at_level(b, sz, player, bm, cm, 2, sub2@[0])) by {
                assert(sub2@.contains(sub2@[0]));
            }
        }
        return Some(m);
    }
    proof {
        assert forall|m: (usize, usize)| !#[trigger] at_level(b, sz, player, bm, cm, 2, m) by {
            if at_level(b, sz, player, bm, cm, 2, m) {
                assert(sub2@.contains(m));
            }
        }
    }

    // 4. build a threat: one below critical, near opponents
    if subcrits.len() > 0 {
        let sc = rule_scores(board, sz, player, &subcrits, 3, bm, cm);
        let (best, _top) = pick_best(&subcrits, &sc, Ghost(lvl1), Ghost(|c: (usize, usize)| rule_score(b, sz, player, bm, cm, 3, c)));
        let m = pick_random(&mut rng, &best);
        proof {
            let u = choose|u: int| 0 <= u < best@.len() && best@[u] == m;
            assert(best_of(lvl1, |c: (usize, usize)| rule_score(b, sz, player, bm, cm, 3, c), best@[u]));
            assert(at_level(b, sz, player, bm, cm, 1, subcrits@[0])) by {
                assert(subcrits@.contains(subcrits@[0]));
            }
        }
        return Some(m);
    }
    proof {
        assert forall|m: (usize, usize)| !#[trigger] at_level(b, sz, player, bm, cm, 1, m) by {
            if at_level(b, sz, player, bm, cm, 1, m) {
                assert(subcrits@.contains(m));
            }
        }
    }

    // 5. any playable square
    let available = filter_playable(board, sz, player, &mine, bm, cm);
    if available.len() > 0 {
        let m = pick_random(&mut rng, &available);
        proof {
            assert(can_play(b, sz, player, bm, cm, available@[0])) by {
                assert(available@.contains(available@[0]));
            }
        }
        return Some(m);
    }
    proof {
        assert forall|m: (usize, usize)| !#[trigger] can_play(b, sz, player, bm, cm, m) by {
            if can_play(b, sz, player, bm, cm, m) {
                assert(available@.contains(m));
            }
        }
        assert forall|c: (usize, usize)| is_mine(b, sz, player, c) implies !lex_lt(c, mine@[0]) by {
            assert(mine@.contains(c));
            let t = choose|t: int| 0 <= t < mine@.len() && mine@[t] == c;
            if t > 0 {
                assert(lex_lt(mine@[0], mine@[t]));
            }
        }
    }

    // 6. the first own square
    Some(mine[0])
}

/// The rule-based player's safe-square rule never prefers a square with more
/// opponent squares next to it: when it chooses by that rule (it has pieces, and no
/// square of its at the critical level has a critical opponent next to it), the
/// square it picks is safe, and has no more opponent squares around it than any
/// other safe square alike in being on an edge and in a corner. Across squares, each
/// opponent around weighs five points against three for an edge and five more for a
/// corner.
pub proof fn lemma_safe_pick_fewest_opponents(
    b: Seq<Seq<Cell>>,
    sz: usize,
    player: usize,
    bm: BorderMode,
    cm: CapMode,
    r: Option<(usize, usize)>,
    c: (usize, usize),
)
    requires
        strategy_pick(b, sz, player, bm, cm, r),
        owns_any(b, player),
        !(exists|m: (usize, usize)| #[trigger] at_level(b, sz, player, bm, cm, 0, m) && crit_hits(b, sz, player, bm, cm, m) >= 1),
        is_safe_sub(b, sz, player, bm, cm, c),
    ensures
        r matches Some(m) && is_safe_sub(b, sz, player, bm, cm, m) && (
            on_edge(m.0, m.1, sz) == on_edge(c.0, c.1, sz) && on_corner(m.0, m.1, sz) == on_corner(c.0, c.1, sz)
                ==> opp_around(b, sz, m, player, None, bm) <= opp_around(b, sz, c, player, None, bm)),
        r matches Some(m) && 5 * (opp_around(b, sz, m, player, None, bm) - opp_around(b, sz, c, player, None, bm))
            <= 3 * ((if on_edge(m.0, m.1, sz) { 1int } else { 0int }) - (if on_edge(c.0, c.1, sz) { 1int } else { 0int }))
                + 5 * ((if on_corner(m.0, m.1, sz) { 1int } else { 0int }) - (if on_corner(c.0, c.1, sz) { 1int } else { 0int })),
{
    let safe = |m: (usize, usize)| is_safe_sub(b, sz, player, bm, cm, m);
    let f = |x: (usize, usize)| rule_score(b, sz, player, bm, cm, 1, x);
    assert(exists|m: (usize, usize)| #[trigger] is_safe_sub(b, sz, player, bm, cm, m));
    let m = r.unwrap();
    assert(best_of(safe, f, m));
    assert(safe(c));
    assert(f(c) <= f(m));
}

} // verus!
