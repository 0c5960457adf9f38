use crate::alphabeta::{among_top, has_choice, lemma_move_list_facts, only_move, root_pick};
use crate::board::{
    bview, cell_threshold, crit_level, get_moves, has_pieces, is_move_list, legal_move, nbrs_with_mode,
    on_corner, on_edge, owns_any, sp_cell_threshold, sp_nbrs_with_mode, wf, BorderMode, CapMode, Cell,
};
use crate::chain::{click_result_any, copy_board, process_click};
use crate::eval::{eval_board, model_fn, MlScore};
use crate::order::{enemy_pieces, enemy_pieces_exec, is_ordered_moves, move_score, moves_of_scored, sort_strip};
use crate::search::{first_move_center, first_move_spec, in_tier, next_live, next_live_player_es, tier_empty, ElimSet};
use crate::minimax::{lemma_moves_of, SearchRules};
use crate::qsearch::{
    is_reorder, lemma_pv_loop_end, lemma_pv_loop_step, lemma_pv_ok_unfold, pv_loop, pv_ok, pvs_cap,
    clamp, es_child, es_next, es_ply, es_terminal, grown, lemma_es_child, lemma_fold_take, lemma_max_fold, lemma_q_result_unfold, lemma_q_result_window, lemma_q_score_at,
    lemma_q_scores_len, lemma_q_step, lemma_q_value_unfold, max_fold, pvs_eval, q_result, q_scores, q_value,
};
use vstd::prelude::*;

verus! {

/// Plies for which killer moves are kept.
pub const PVS_MAX_DEPTH: usize = 64;

/// Rows and columns for which the history table keeps counts.
pub const PVS_HISTORY_SIZE: usize = 40;

/// The ordering score of a move in the principal-variation search: the plain
/// ordering score plus a million for the first killer move of the ply, half a
/// million for the second, and a hundred per history count; for a player without
/// pieces, five per enemy piece next to the square.
pub open spec fn pvs_score(
    b: Seq<Seq<Cell>>,
    sz: usize,
    player: usize,
    bm: BorderMode,
    cm: CapMode,
    k0: Option<(usize, usize)>,
    k1: Option<(usize, usize)>,
    hist: Seq<i32>,
    m: (usize, usize),
) -> int {
    let ns = sp_nbrs_with_mode(m.0, m.1, sz, bm);
    if owns_any(b, player) {
        move_score(b, sz, player, bm, cm, m)
            + (if k0 == Some(m) { 1000000int } else if k1 == Some(m) { 500000int } else { 0int })
            + (if m.0 < PVS_HISTORY_SIZE && m.1 < PVS_HISTORY_SIZE { hist[m.0 * 40 + m.1] * 100 } else { 0int })
    } else {
        5 * enemy_pieces(b, ns, ns.len(), player)
    }
}

/// The legal moves, each once, sorted by descending `pvs_score`.
pub open spec fn pvs_ordered(
    b: Seq<Seq<Cell>>,
    sz: usize,
    player: usize,
    bm: BorderMode,
    cm: CapMode,
    k0: Option<(usize, usize)>,
    k1: Option<(usize, usize)>,
    hist: Seq<i32>,
    r: Seq<(usize, usize)>,
) -> bool {
    &&& exists|mv: Seq<(usize, usize)>| is_move_list(b, sz, player, bm, cm, mv)
        && r.len() == mv.len() && r.to_multiset() == mv.to_multiset() && forall|m: (usize, usize)| r.contains(m) <==> mv.contains(m)
    &&& forall|a: int, c: int| 0 <= a < c < r.len() ==>
        pvs_score(b, sz, player, bm, cm, k0, k1, hist, #[trigger] r[a]) >= pvs_score(b, sz, player, bm, cm, k0, k1, hist, #[trigger] r[c])
}

/// The smallest count at which a square of the player to move is searched in the
/// quiescence search.
pub open spec fn qs_min(x: usize, y: usize, sz: usize, bm: BorderMode, cm: CapMode) -> u8 {
    match cm {
        CapMode::Cap3 => 1,
        CapMode::Cap5 => 3,
        CapMode::Random => 2,
        CapMode::Cap4 => match bm {
            BorderMode::Degrade => if on_corner(x, y, sz) { 1 } else if on_edge(x, y, sz) { 2 } else { 3 },
            _ => 3,
        },
    }
}

/// The ply of the search from which the root limit grows: ten moves, two more per
/// ply past the first.
pub open spec fn pvs_root_limit(depth: usize) -> int {
    if depth == 0 { 10 } else { 10 + 2 * (depth - 1) }
}

/// A value of the negamax search: any `i32` but the smallest, so that it can be
/// negated.
pub open spec fn score_ok(v: i32) -> bool {
    v > i32::MIN
}

/// Negamax search with principal-variation windows, killer moves and a history table.
struct PvsSearcher {
    game_count: u32,
    killers0: Vec<Option<(usize, usize)>>,
    killers1: Vec<Option<(usize, usize)>>,
    history: Vec<i32>,
    ai_player: usize,
    use_ml_eval: bool,
    border_mode: BorderMode,
    cap_mode: CapMode,
    user_random_scale: u32,
}

impl PvsSearcher {
    /// The tables have their sizes: two killer moves per ply and a 40 by 40 history.
    spec fn tables_ok(&self) -> bool {
        &&& self.killers0@.len() == PVS_MAX_DEPTH
        &&& self.killers1@.len() == PVS_MAX_DEPTH
        &&& self.history@.len() == PVS_HISTORY_SIZE * PVS_HISTORY_SIZE
        &&& self.ai_player < 32
    }

    /// No killer move and no history yet.
    spec fn fresh(&self) -> bool {
        &&& self.tables_ok()
        &&& forall|d: int| 0 <= d < PVS_MAX_DEPTH ==> (#[trigger] self.killers0@[d]) is None && self.killers1@[d] is None
        &&& forall|k: int| 0 <= k < PVS_HISTORY_SIZE * PVS_HISTORY_SIZE ==> #[trigger] self.history@[k] == 0
    }

    /// The fixed parameters of a search by this searcher on a board of side `sz`.
    spec fn rules<M: MlScore>(&self, sz: usize, max_players: usize, ml: M) -> SearchRules {
        SearchRules {
            sz,
            ai_player: self.ai_player,
            max_players,
            game_count: self.game_count,
            border_mode: self.border_mode,
            cap_mode: self.cap_mode,
            user_random_scale: self.user_random_scale,
            use_ml_eval: self.use_ml_eval,
            model: model_fn(ml, self.border_mode, self.cap_mode),
        }
    }

    /// The settings of the search, which the search leaves unchanged.
    spec fn same_settings(&self, other: &PvsSearcher) -> bool {
        &&& self.game_count == other.game_count
        &&& self.ai_player == other.ai_player
        &&& self.use_ml_eval == other.use_ml_eval
        &&& self.border_mode == other.border_mode
        &&& self.cap_mode == other.cap_mode
        &&& self.user_random_scale == other.user_random_scale
    }

    fn new(
        ai_player: usize,
        game_count: u32,
        use_ml_eval: bool,
        border_mode: BorderMode,
        cap_mode: CapMode,
        user_random_scale: u32,
    ) -> (r: PvsSearcher)
        requires
            ai_player < 32,
        ensures
            r.fresh(),
            r.game_count == game_count,
            r.ai_player == ai_player,
            r.use_ml_eval == use_ml_eval,
            r.border_mode == border_mode,
            r.cap_mode == cap_mode,
            r.user_random_scale == user_random_scale,
    {
        let mut killers0: Vec<Option<(usize, usize)>> = Vec::new();
        let mut killers1: Vec<Option<(usize, usize)>> = Vec::new();
        let mut d: usize = 0;
        while d < PVS_MAX_DEPTH
            invariant
                0 <= d <= PVS_MAX_DEPTH,
                killers0@.len() == d,
                killers1@.len() == d,
                forall|t: int| 0 <= t < d ==> (#[trigger] killers0@[t]) is None && killers1@[t] is None,
            decreases PVS_MAX_DEPTH - d,
        {
            killers0.push(None);
            killers1.push(None);
            d += 1;
        }
        let mut history: Vec<i32> = Vec::new();
        let mut k: usize = 0;
        while k < PVS_HISTORY_SIZE * PVS_HISTORY_SIZE
            invariant
                0 <= k <= PVS_HISTORY_SIZE * PVS_HISTORY_SIZE,
                history@.len() == k,
                forall|t: int| 0 <= t < k ==> #[trigger] history@[t] == 0,
            decreases PVS_HISTORY_SIZE * PVS_HISTORY_SIZE - k,
        {
            history.push(0);
            k += 1;
        }
        PvsSearcher {
            game_count,
            killers0,
            killers1,
            history,
            ai_player,
            use_ml_eval,
            border_mode,
            cap_mode,
            user_random_scale,
        }
    }

    /// Adds five per enemy piece on the neighbours of `(i, j)` to `score`.
    fn add_neighbor_scores(&self, score: &mut i64, board: &Vec<Vec<Cell>>, sz: usize, i: usize, j: usize, player: usize)
        requires
            wf(bview(board), sz as int),
            i < sz,
            j < sz,
            -1000000000000000 <= *old(score) <= 1000000000000000,
        ensures
            *old(score) <= *final(score) <= *old(score) + 5100,
            *final(score) == *old(score) + 5 * enemy_pieces(bview(board), sp_nbrs_with_mode(i, j, sz, self.border_mode), sp_nbrs_with_mode(i, j, sz, self.border_mode).len(), player),
    {
        let ns = nbrs_with_mode(i, j, sz, self.border_mode);
        proof {
            if self.border_mode != BorderMode::Wrap {
                assert(ns@.len() <= 4);
            }
        }
        let near = enemy_pieces_exec(board, sz, &ns, player);
        *score = *score + near * 5;
    }

    /// The legal moves of `player`, sorted by descending `pvs_score` with the killer
    /// moves of ply `depth`.
    fn get_moves_ordered(&self, board: &Vec<Vec<Cell>>, sz: usize, player: usize, depth: usize) -> (r: Vec<(usize, usize)>)
        requires
            self.tables_ok(),
            wf(bview(board), sz as int),
            1 <= sz <= 256,
            depth < PVS_MAX_DEPTH,
        ensures
            pvs_ordered(
                bview(board),
                sz,
                player,
                self.border_mode,
                self.cap_mode,
                self.killers0@[depth as int],
                self.killers1@[depth as int],
                self.history@,
                r@,
            ),
    {
        let ghost b = bview(board);
        let has_p = has_pieces(board, player);
        let k0 = self.killers0[depth];
        let k1 = self.killers1[depth];
        let moves = get_moves(board, sz, player, None, self.border_mode, self.cap_mode);
        let ghost f = |m: (usize, usize)|
            pvs_score(b, sz, player, self.border_mode, self.cap_mode, k0, k1, self.history@, m);
        let mut scored: Vec<(i64, (usize, usize))> = Vec::new();
        let mut k: usize = 0;
        while k < moves.len()
            invariant
                self.tables_ok(),
                b == bview(board),
                wf(b, sz as int),
                1 <= sz <= 256,
                depth < PVS_MAX_DEPTH,
                has_p == owns_any(b, player),
                k0 == self.killers0@[depth as int],
                k1 == self.killers1@[depth as int],
                f == (|m: (usize, usize)| pvs_score(b, sz, player, self.border_mode, self.cap_mode, k0, k1, self.history@, m)),
                is_move_list(b, sz, player, self.border_mode, self.cap_mode, moves@),
                0 <= k <= moves@.len(),
                scored@.len() == k,
                forall|t: int| 0 <= t < k ==> (#[trigger] scored@[t]).1 == moves@[t] && scored@[t].0 == f(moves@[t]),
            decreases moves@.len() - k,
        {
            let m = moves[k];
            assert(legal_move(b, sz, player, self.border_mode, self.cap_mode, moves@[k as int]));
            let i = m.0;
            let j = m.1;
            let mut score: i64 = 0;
            if has_p {
                assert(b[i as int] == board@[i as int]@);
                let c = board[i][j];
                score = c.count as i64 * 10;
                if (c.count as u32) >= crit_level(i, j, sz, self.border_mode, self.cap_mode) {
                    score = score + 100;
                }
                self.add_neighbor_scores(&mut score, board, sz, i, j, player);
                let is_k0 = match k0 {
                    Some(km) => km.0 == i && km.1 == j,
                    None => false,
                };
                let is_k1 = match k1 {
                    Some(km) => km.0 == i && km.1 == j,
                    None => false,
                };
                if is_k0 {
                    score = score + 1000000;
                } else if is_k1 {
                    score = score + 500000;
                }
                if i < PVS_HISTORY_SIZE && j < PVS_HISTORY_SIZE {
                    score = score + self.history[i * 40 + j] as i64 * 100;
                }
            } else {
                self.add_neighbor_scores(&mut score, board, sz, i, j, player);
            }
            scored.push((score, m));
            k += 1;
        }
        let ghost pre = scored@;
        let r = sort_strip(scored, Ghost(f));
        proof {
            assert(moves_of_scored(pre) =~= moves@);
            assert forall|m: (usize, usize)| r@.contains(m) <==> moves@.contains(m) by {
                if r@.contains(m) {
                    let u = choose|u: int| 0 <= u < pre.len() && (#[trigger] pre[u]).1 == m;
                    assert(moves@[u] == m);
                }
                if moves@.contains(m) {
                    let u = choose|u: int| 0 <= u < moves@.len() && moves@[u] == m;
                    assert(pre[u].1 == m);
                }
            }
            assert forall|a: int, c: int| 0 <= a < c < r@.len() implies
                pvs_score(b, sz, player, self.border_mode, self.cap_mode, k0, k1, self.history@, #[trigger] r@[a])
                    >= pvs_score(b, sz, player, self.border_mode, self.cap_mode, k0, k1, self.history@, #[trigger] r@[c]) by {
                assert(f(r@[a]) >= f(r@[c]));
            }
        }
        r
    }

    /// Searches only the explosive moves (at most a hundred, in row-major order) for
    /// up to three plies below the horizon, standing pat on the evaluation. An ended
    /// position gets its score, a position at the third ply or below its evaluation;
    /// otherwise the answer is the quiescence value held within the window (every move,
    /// played with one seed, has one outcome).
    fn quiescence<M: MlScore>(
        &mut self,
        board: &Vec<Vec<Cell>>,
        sz: usize,
        player: usize,
        max_players: usize,
        elim: ElimSet,
        alpha: i32,
        beta: i32,
        depth: i32,
        ml: &M,
    ) -> (r: i32)
        requires
            old(self).tables_ok(),
            wf(bview(board), sz as int),
            1 <= sz <= 256,
            max_players <= 10,
            score_ok(alpha),
            score_ok(beta),
            0 <= depth,
        ensures
            final(self).tables_ok(),
            final(self).same_settings(old(self)),
            score_ok(r),
            es_terminal(bview(board), out_set(elim), player, old(self).rules(sz, max_players, *ml)) matches Some(v) ==> r == v,
            es_terminal(bview(board), out_set(elim), player, old(self).rules(sz, max_players, *ml)) is None && depth >= 3
                ==> r as int == pvs_eval(bview(board), player, old(self).rules(sz, max_players, *ml)),
            es_terminal(bview(board), out_set(elim), player, old(self).rules(sz, max_players, *ml)) is None && depth < 3 ==> (r == beta
                || alpha <= r),
            es_terminal(bview(board), out_set(elim), player, old(self).rules(sz, max_players, *ml)) is None && depth < 3 && alpha <= beta
                ==> alpha <= r <= beta,
            alpha < beta ==> r == q_result(
                bview(board),
                out_set(elim),
                player,
                depth as nat,
                alpha as int,
                beta as int,
                old(self).rules(sz, max_players, *ml),
            ),
        decreases if depth < 3 { 3 - depth } else { 0 },
    {
        let ghost bb = bview(board);
        let ghost out = out_set(elim);
        let ghost rr = self.rules(sz, max_players, *ml);
        let ghost p = alpha < beta;
        let ghost d = depth as nat;
        proof {
            lemma_q_value_unfold(bb, out, player, d, rr);
            lemma_q_result_unfold(bb, out, player, d, alpha as int, beta as int, rr);
        }
        if elim.contains(self.ai_player) {
            return if player == self.ai_player { i32::MIN + 1000 } else { i32::MAX - 1000 };
        }
        let alive_cnt = alive_count(board, elim, max_players);
        if alive_cnt <= 1 {
            return i32::MIN + 1000;
        }
        if depth >= 3 {
            return eval_board(board, player, self.game_count, self.use_ml_eval, self.border_mode, self.cap_mode, self.user_random_scale, ml);
        }
        let stand_pat = eval_board(board, player, self.game_count, self.use_ml_eval, self.border_mode, self.cap_mode, self.user_random_scale, ml);
        let moves = explosive_moves(board, sz, player, self.border_mode, self.cap_mode);
        let ghost scores = q_scores(bb, out, player, moves@, d + 1, rr);
        proof {
            lemma_max_fold(stand_pat as int, scores, beta as int);
            lemma_q_scores_len(bb, out, player, moves@, d + 1, rr);
        }
        if stand_pat >= beta {
            return beta;
        }
        let mut alpha2 = if stand_pat > alpha { stand_pat } else { alpha };
        let mut k: usize = 0;
        proof {
            assert(scores.take(0) =~= Seq::<int>::empty());
        }
        while k < moves.len()
            invariant
                self.tables_ok(),
                self.same_settings(old(self)),
                bb == bview(board),
                out == out_set(elim),
                rr == self.rules(sz, max_players, *ml),
                p == (alpha < beta),
                d == depth,
                wf(bview(board), sz as int),
                1 <= sz <= 256,
                max_players <= 10,
                score_ok(alpha2),
                score_ok(beta),
                0 <= depth < 3,
                alpha <= alpha2,
                alpha <= beta ==> alpha2 <= beta,
                0 <= k <= moves@.len(),
                es_terminal(bb, out, player, rr) is None,
                scores == q_scores(bb, out, player, moves@, d + 1, rr),
                scores.len() == moves@.len(),
                p ==> q_result(bb, out, player, d, alpha as int, beta as int, rr) == clamp(max_fold(stand_pat as int, scores), alpha as int, beta as int),
                forall|t: int| 0 <= t < moves@.len() ==> (#[trigger] moves@[t]).0 < sz && moves@[t].1 < sz
                    && bview(board)[moves@[t].0 as int][moves@[t].1 as int].count < 255,
                p ==> alpha2 == (if alpha > max_fold(stand_pat as int, scores.take(k as int)) { alpha as int } else { max_fold(stand_pat as int, scores.take(k as int)) }),
                p ==> alpha2 < beta,
                p ==> forall|j: int| 0 <= j < k ==> scores[j] < beta,
            decreases moves@.len() - k,
        {
            let m = moves[k];
            let (child, child_elim) = play_es(board, sz, m, player, max_players, self.border_mode, self.cap_mode, elim);
            let next = next_live_player_es(&child, sz, player, child_elim, max_players);
            let ghost a_before = alpha2;
            let ghost cb = bview(&child);
            let ghost cout = out_set(child_elim);
            proof {
                assert((|q: usize| cout.contains(q)) =~= (|q: usize| child_elim.has(q)));
                if p {
                    lemma_q_score_at(bb, out, player, moves@, k as int, d + 1, cb, cout, next, rr);
                    lemma_q_result_window(cb, cout, next, d + 1, -(beta as int), -(alpha2 as int), rr);
                }
                lemma_fold_take(stand_pat as int, scores, k as int);
            }
            let v = self.quiescence(&child, sz, next, max_players, child_elim, -beta, -alpha2, depth + 1, ml);
            proof {
                if p {
                    lemma_q_step(
                        alpha as int,
                        a_before as int,
                        beta as int,
                        max_fold(stand_pat as int, scores.take(k as int)),
                        max_fold(stand_pat as int, scores.take(k + 1)),
                        v as int,
                        q_value(cb, cout, next, d + 1, rr),
                        scores[k as int],
                    );
                }
            }
            let score = -v;
            if score >= beta {
                proof {
                    if p {
                        lemma_max_fold(stand_pat as int, scores, beta as int);
                    }
                }
                return beta;
            }
            if score > alpha2 {
                alpha2 = score;
            }
            k += 1;
        }
        proof {
            assert(scores.take(moves@.len() as int) =~= scores);
            if p {
                lemma_max_fold(stand_pat as int, scores, beta as int);
            }
        }
        alpha2
    }

    /// Negamax principal-variation search to `depth` plies from the view of the player
    /// to move; the first move gets the full window, the others a null window and a
    /// full re-search when they fall inside it. An ended position gets its score, the
    /// last ply the quiescence answer or the evaluation; the answer is what the search
    /// procedure gives for some order of the legal moves (`pv_ok`), whatever order the
    /// killer moves and the history chose (every move, played with one seed, has one
    /// outcome).
    fn pvs<M: MlScore>(
        &mut self,
        board: &Vec<Vec<Cell>>,
        sz: usize,
        player: usize,
        max_players: usize,
        elim: ElimSet,
        depth: usize,
        alpha: i32,
        beta: i32,
        use_qsearch: bool,
        ml: &M,
    ) -> (r: i32)
        requires
            old(self).tables_ok(),
            wf(bview(board), sz as int),
            1 <= sz <= 256,
            max_players <= 10,
            score_ok(alpha),
            score_ok(beta),
            depth < PVS_MAX_DEPTH,
        ensures
            final(self).tables_ok(),
            final(self).same_settings(old(self)),
            score_ok(r),
            es_terminal(bview(board), out_set(elim), player, old(self).rules(sz, max_players, *ml)) matches Some(v) ==> r == v,
            es_terminal(bview(board), out_set(elim), player, old(self).rules(sz, max_players, *ml)) is None && depth == 0 && !use_qsearch
                ==> r as int == pvs_eval(bview(board), player, old(self).rules(sz, max_players, *ml)),
            es_terminal(bview(board), out_set(elim), player, old(self).rules(sz, max_players, *ml)) is None && depth == 0 && use_qsearch
                ==> (r == beta || alpha <= r),
            es_terminal(bview(board), out_set(elim), player, old(self).rules(sz, max_players, *ml)) is None && depth == 0 && use_qsearch
                && alpha <= beta ==> alpha <= r <= beta,
            alpha < beta ==> pv_ok(
                bview(board),
                out_set(elim),
                player,
                depth as nat,
                alpha as int,
                beta as int,
                use_qsearch,
                r as int,
                old(self).rules(sz, max_players, *ml),
            ),
        decreases depth,
    {
        let ghost bb = bview(board);
        let ghost out = out_set(elim);
        let ghost rr = self.rules(sz, max_players, *ml);
        let ghost p = alpha < beta;
        let ghost dd = depth as nat;
        if elim.contains(self.ai_player) {
            proof {
                lemma_pv_ok_unfold(bb, out, player, dd, alpha as int, beta as int, use_qsearch, i32::MIN + 1000, rr, Seq::empty());
                lemma_pv_ok_unfold(bb, out, player, dd, alpha as int, beta as int, use_qsearch, i32::MAX - 1000, rr, Seq::empty());
            }
            return if player == self.ai_player { i32::MIN + 1000 } else { i32::MAX - 1000 };
        }
        let alive_cnt = alive_count(board, elim, max_players);
        if alive_cnt <= 1 {
            proof {
                lemma_pv_ok_unfold(bb, out, player, dd, alpha as int, beta as int, use_qsearch, i32::MIN + 1000, rr, Seq::empty());
            }
            return i32::MIN + 1000;
        }
        if depth == 0 {
            if use_qsearch {
                let v = self.quiescence(board, sz, player, max_players, elim, alpha, beta, 0, ml);
                proof {
                    lemma_pv_ok_unfold(bb, out, player, dd, alpha as int, beta as int, use_qsearch, v as int, rr, Seq::empty());
                }
                return v;
            }
            let v = eval_board(board, player, self.game_count, self.use_ml_eval, self.border_mode, self.cap_mode, self.user_random_scale, ml);
            proof {
                lemma_pv_ok_unfold(bb, out, player, dd, alpha as int, beta as int, use_qsearch, v as int, rr, Seq::empty());
            }
            return v;
        }
        let moves = self.get_moves_ordered(board, sz, player, depth);
        let ghost b = bview(board);
        let ghost mv = choose|mv: Seq<(usize, usize)>| is_move_list(b, sz, player, self.border_mode, self.cap_mode, mv)
            && moves@.len() == mv.len() && forall|m: (usize, usize)| moves@.contains(m) <==> mv.contains(m);
        proof {
            assert forall|t: int| 0 <= t < moves@.len() implies
                legal_move(b, sz, player, self.border_mode, self.cap_mode, #[trigger] moves@[t]) by {
                assert(moves@.contains(moves@[t]));
                assert(mv.contains(moves@[t]));
                let c = choose|c: int| 0 <= c < mv.len() && mv[c] == moves@[t];
                assert(legal_move(b, sz, player, self.border_mode, self.cap_mode, mv[c]));
            }
            lemma_moves_of(b, player, rr, mv);
            assert(is_reorder(moves@, mv));
        }
        let extra: usize = if depth < 3 { (3 - depth) * 3 } else { 0 };
        let cap: usize = 8 + extra;
        let max_branch: usize = if moves.len() < cap { moves.len() } else { cap };
        if max_branch == 0 {
            let v = eval_board(board, player, self.game_count, self.use_ml_eval, self.border_mode, self.cap_mode, self.user_random_scale, ml);
            proof {
                lemma_pv_ok_unfold(bb, out, player, dd, alpha as int, beta as int, use_qsearch, v as int, rr, Seq::empty());
            }
            return v;
        }
        let ghost ord = moves@;
        let ghost n = pvs_cap(dd, mv.len());
        let ghost alpha0 = alpha as int;
        let mut alpha = alpha;
        let mut best_score: i32 = i32::MIN + 1;
        let mut idx: usize = 0;
        let mut done = false;
        let ghost mut gi: nat = 0;
        while idx < max_branch && !done
            invariant
                gi == idx,
                self.tables_ok(),
                self.same_settings(old(self)),
                b == bview(board),
                bb == b,
                out == out_set(elim),
                rr == self.rules(sz, max_players, *ml),
                p == (alpha0 < beta),
                dd == depth,
                ord == moves@,
                n == max_branch,
                wf(b, sz as int),
                1 <= sz <= 256,
                max_players <= 10,
                1 <= depth < PVS_MAX_DEPTH,
                score_ok(alpha),
                score_ok(beta),
                score_ok(best_score),
                max_branch <= moves@.len(),
                0 <= idx <= max_branch,
                !done && idx > 0 ==> alpha < beta,
                !done && idx == 0 ==> alpha == alpha0,
                done ==> idx > 0,
                forall|t: int| 0 <= t < moves@.len() ==>
                    legal_move(b, sz, player, self.border_mode, self.cap_mode, #[trigger] moves@[t]),
                p && !done ==> forall|res: int|
                    #[trigger] pv_loop(bb, out, player, dd, ord, gi, n, alpha as int, beta as int, best_score as int, res, rr)
                        ==> pv_loop(bb, out, player, dd, ord, 0, n, alpha0, beta as int, i32::MIN + 1, res, rr),
                p && done ==> pv_loop(bb, out, player, dd, ord, 0, n, alpha0, beta as int, i32::MIN + 1, best_score as int, rr),
            decreases max_branch - idx,
        {
            let m = moves[idx];
            proof {
                assert(legal_move(b, sz, player, self.border_mode, self.cap_mode, moves@[idx as int]));
                if owns_any(b, player) {
                    assert((b[m.0 as int][m.1 as int].count as u32) < 6);
                }
            }
            let (child, child_elim) = play_es(board, sz, m, player, max_players, self.border_mode, self.cap_mode, elim);
            let next = next_live_player_es(&child, sz, player, child_elim, max_players);
            let ghost cb = bview(&child);
            let ghost cout = out_set(child_elim);
            let ghost a_before = alpha as int;
            let ghost best_before = best_score as int;
            proof {
                assert((|q: usize| cout.contains(q)) =~= (|q: usize| child_elim.has(q)));
            }
            let ghost mut gv1: int = 0;
            let ghost mut gv2: int = 0;
            let score = if idx == 0 {
                let v = self.pvs(&child, sz, next, max_players, child_elim, depth - 1, -beta, -alpha, true, ml);
                proof {
                    gv1 = v as int;
                }
                -v
            } else {
                let v = self.pvs(&child, sz, next, max_players, child_elim, depth - 1, -alpha - 1, -alpha, false, ml);
                proof {
                    gv1 = v as int;
                }
                let s = -v;
                if s > alpha && s < beta {
                    let v2 = self.pvs(&child, sz, next, max_players, child_elim, depth - 1, -beta, -alpha, true, ml);
                    proof {
                        gv2 = v2 as int;
                    }
                    -v2
                } else {
                    s
                }
            };
            if score > best_score {
                best_score = score;
            }
            if score > alpha {
                alpha = score;
                let prev = self.killers0[depth];
                self.killers1.set(depth, prev);
                self.killers0.set(depth, Some(m));
            }
            if m.0 < PVS_HISTORY_SIZE && m.1 < PVS_HISTORY_SIZE {
                let h = self.history[m.0 * 40 + m.1];
                assert(depth * depth < 4096) by (nonlinear_arith)
                    requires
                        depth < 64,
                ;
                let bonus: i32 = (depth * depth) as i32;
                self.history.set(m.0 * 40 + m.1, h.wrapping_add(bonus));
            }
            if alpha >= beta {
                done = true;
            }
            idx += 1;
            proof {
                gi = gi + 1;
                if p {
                    lemma_pv_loop_step(
                        bb,
                        out,
                        player,
                        dd,
                        ord,
                        (gi - 1) as nat,
                        n,
                        a_before,
                        beta as int,
                        best_before,
                        rr,
                        cb,
                        cout,
                        next,
                        gv1,
                        gv2,
                        gi,
                        alpha as int,
                        best_score as int,
                    );
                }
            }
        }
        proof {
            if p && !done {
                lemma_pv_loop_end(bb, out, player, dd, ord, gi, n, alpha as int, beta as int, best_score as int, rr);
            }
            if p {
                lemma_pv_ok_unfold(bb, out, player, dd, alpha0, beta as int, use_qsearch, best_score as int, rr, ord);
            }
        }
        best_score
    }
}

/// The players out, as a set, for a list of eliminated players.
pub open spec fn listed_out(e: Seq<usize>) -> Set<usize> {
    Set::new(|p: usize| e.contains(p))
}

/// The worth of the root move `m` of `pl` searched to `depth` plies: minus a value
/// that the full-window search of the child position to `depth - 1` plies may give,
/// or, at depth 0, the evaluation of the child position for `pl`.
pub open spec fn root_worth_ok(b: Seq<Seq<Cell>>, out: Set<usize>, pl: usize, m: (usize, usize), depth: nat, w: int, r: SearchRules) -> bool {
    let c = es_child(b, out, pl, m, r);
    if depth > 0 {
        pv_ok(c.0, c.1, es_next(c.0, c.1, pl, r), (depth - 1) as nat, i32::MIN + 1, i32::MAX - 1, false, -w, r)
    } else {
        w == pvs_eval(c.0, pl, r)
    }
}

/// The position of the largest value of a non-empty sequence, the last of equal ones.
pub open spec fn last_max_at(s: Seq<int>) -> int
    decreases s.len(),
{
    if s.len() <= 1 {
        0
    } else {
        let p = last_max_at(s.drop_last());
        if s[p] <= s.last() { s.len() - 1 } else { p }
    }
}

proof fn lemma_last_max_at(s: Seq<int>)
    requires
        s.len() >= 1,
    ensures
        0 <= last_max_at(s) < s.len(),
        forall|k: int| 0 <= k < s.len() ==> #[trigger] s[k] <= s[last_max_at(s)],
    decreases s.len(),
{
    if s.len() > 1 {
        let t = s.drop_last();
        lemma_last_max_at(t);
        assert forall|k: int| 0 <= k < s.len() implies #[trigger] s[k] <= s[last_max_at(s)] by {
            if k < t.len() {
                assert(s[k] == t[k]);
            }
        }
    }
}

/// The answer of the root search: for some ordering `ord` of the legal moves that
/// the search may use, the move among the first `limit` whose worth is the largest,
/// the last of equal ones.
pub open spec fn pvs_root_best(
    b: Seq<Seq<Cell>>,
    out: Set<usize>,
    pl: usize,
    depth: nat,
    r: SearchRules,
    limit: int,
    res: Option<(usize, usize)>,
) -> bool {
    exists|mv: Seq<(usize, usize)>, ord: Seq<(usize, usize)>, ws: Seq<int>|
        #![trigger is_ordered_moves(b, r.sz, pl, r.border_mode, r.cap_mode, mv, ord), last_max_at(ws)]
        {
            &&& is_move_list(b, r.sz, pl, r.border_mode, r.cap_mode, mv)
            &&& is_ordered_moves(b, r.sz, pl, r.border_mode, r.cap_mode, mv, ord)
            &&& ws.len() == (if ord.len() < limit { ord.len() as int } else { limit })
            &&& ws.len() >= 1
            &&& forall|k: int| 0 <= k < ws.len() ==> root_worth_ok(b, out, pl, ord[k], depth, #[trigger] ws[k], r)
            &&& res == Some(ord[last_max_at(ws)])
        }
}

impl PvsSearcher {
    /// The root of the search: no move, the only move, the centre pick for a first
    /// move, or the best by searched value (the last of equal values) among the
    /// first `pvs_root_limit(depth)` ordered moves, each searched by a fresh searcher.
    fn find_best<M: MlScore>(
        &mut self,
        board: &Vec<Vec<Cell>>,
        sz: usize,
        player: usize,
        max_players: usize,
        eliminated: &[usize],
        depth: usize,
        ml: &M,
    ) -> (r: Option<(usize, usize)>)
        requires
            old(self).fresh(),
            wf(bview(board), sz as int),
            1 <= sz <= 256,
            max_players <= 10,
            depth < PVS_MAX_DEPTH,
            forall|k: int| 0 <= k < eliminated@.len() ==> #[trigger] eliminated@[k] < 32,
        ensures
            root_pick(bview(board), sz, player, old(self).border_mode, old(self).cap_mode, pvs_root_limit(depth), r),
            has_choice(bview(board), sz, player, old(self).border_mode, old(self).cap_mode) && owns_any(bview(board), player)
                ==> pvs_root_best(
                bview(board),
                listed_out(eliminated@),
                player,
                depth as nat,
                old(self).rules(sz, max_players, *ml),
                pvs_root_limit(depth),
                r,
            ),
    {
        let ghost b = bview(board);
        let ghost rr = self.rules(sz, max_players, *ml);
        let bm = self.border_mode;
        let cm = self.cap_mode;
        let ordered = self.get_moves_ordered(board, sz, player, depth);
        let ghost ord = ordered@;
        let ghost mv = choose|mv: Seq<(usize, usize)>| is_move_list(b, sz, player, bm, cm, mv)
            && ord.len() == mv.len() && ord.to_multiset() == mv.to_multiset() && forall|m: (usize, usize)| ord.contains(m) <==> mv.contains(m);
        proof {
            lemma_move_list_facts(b, sz, player, bm, cm, mv);
            assert forall|t: int| 0 <= t < ord.len() implies legal_move(b, sz, player, bm, cm, #[trigger] ord[t]) by {
                assert(ord.contains(ord[t]));
                assert(mv.contains(ord[t]));
                let c = choose|c: int| 0 <= c < mv.len() && mv[c] == ord[t];
                assert(legal_move(b, sz, player, bm, cm, mv[c]));
            }
        }
        if ordered.len() == 0 {
            return None;
        }
        if ordered.len() == 1 {
            proof {
                assert(ord.contains(ord[0]));
                assert(mv.contains(ord[0]));
            }
            return Some(ordered[0]);
        }
        if !has_pieces(board, player) {
            let r = first_move_center(board, sz);
            proof {
                assert(legal_move(b, sz, player, bm, cm, ord[0]));
                assert(in_tier(b, sz, 1, ord[0]));
                assert(!tier_empty(b, sz, 1));
            }
            return r;
        }
        proof {
            assert forall|a: int, c: int| 0 <= a < c < ord.len() implies
                move_score(b, sz, player, bm, cm, #[trigger] ord[a]) >= move_score(b, sz, player, bm, cm, #[trigger] ord[c]) by {
                lemma_fresh_score(self, b, sz, player, depth, ord[a]);
                lemma_fresh_score(self, b, sz, player, depth, ord[c]);
            }
            assert(is_ordered_moves(b, sz, player, bm, cm, mv, ord));
        }
        let elim_root = ElimSet::from_slice(eliminated);
        let ghost out = listed_out(eliminated@);
        assert(out_set(elim_root) =~= out);
        let lim: usize = 10 + (if depth > 0 { depth - 1 } else { 0 }) * 2;
        let root_limit: usize = if ordered.len() < lim { ordered.len() } else { lim };
        if root_limit == 0 {
            return Some(ordered[0]);
        }
        let ai_player = self.ai_player;
        let gc = self.game_count;
        let use_ml = self.use_ml_eval;
        let urs = self.user_random_scale;
        let mut best: Option<(i32, (usize, usize))> = None;
        let mut k: usize = 0;
        let ghost mut ws: Seq<int> = Seq::empty();
        assert(root_limit as int == (if ord.len() < pvs_root_limit(depth) { ord.len() as int } else { pvs_root_limit(depth) }));
        while k < root_limit
            invariant
                b == bview(board),
                wf(b, sz as int),
                1 <= sz <= 256,
                max_players <= 10,
                ai_player < 32,
                depth < PVS_MAX_DEPTH,
                ord == ordered@,
                root_limit <= ordered@.len(),
                root_limit <= pvs_root_limit(depth),
                0 <= k <= root_limit,
                forall|t: int| 0 <= t < ord.len() ==> legal_move(b, sz, player, bm, cm, #[trigger] ord[t]),
                owns_any(b, player),
                k == 0 <==> best is None,
                best matches Some(p) ==> exists|t: int| 0 <= t < k && ord[t] == p.1,
                rr == self.rules(sz, max_players, *ml),
                ai_player == self.ai_player,
                gc == self.game_count,
                use_ml == self.use_ml_eval,
                bm == self.border_mode,
                cm == self.cap_mode,
                urs == self.user_random_scale,
                out == out_set(elim_root),
                ws.len() == k,
                forall|t: int| 0 <= t < k ==> root_worth_ok(b, out, player, ord[t], depth as nat, #[trigger] ws[t], rr),
                k > 0 ==> (best matches Some(p) && p.1 == ord[last_max_at(ws)] && p.0 == ws[last_max_at(ws)]),
            decreases root_limit - k,
        {
            let m = ordered[k];
            proof {
                assert(legal_move(b, sz, player, bm, cm, ord[k as int]));
                assert((b[m.0 as int][m.1 as int].count as u32) < 6);
            }
            let (child, child_elim) = play_es(board, sz, m, player, max_players, bm, cm, elim_root);
            let next = next_live_player_es(&child, sz, player, child_elim, max_players);
            let mut searcher = PvsSearcher::new(ai_player, gc, use_ml, bm, cm, urs);
            let score = if depth > 0 {
                let v = searcher.pvs(&child, sz, next, max_players, child_elim, depth - 1, i32::MIN + 1, i32::MAX - 1, false, ml);
                -v
            } else {
                eval_board(&child, player, gc, use_ml, bm, cm, urs, ml)
            };
            proof {
                assert((|q: usize| out_set(child_elim).contains(q)) =~= (|q: usize| child_elim.has(q)));
                lemma_es_child(b, out, player, m, bview(&child), out_set(child_elim), rr);
                assert(searcher.rules(sz, max_players, *ml) == rr);
                assert(root_worth_ok(b, out, player, m, depth as nat, score as int, rr));
            }
            let ghost ws0 = ws;
            match best {
                None => {
                    best = Some((score, m));
                },
                Some((bs, _)) => {
                    if bs <= score {
                        best = Some((score, m));
                    }
                },
            }
            proof {
                ws = ws0.push(score as int);
                assert(ws.drop_last() =~= ws0);
                assert(ws[k as int] == score as int);
                if k > 0 {
                    lemma_last_max_at(ws0);
                }
            }
            k += 1;
        }
        match best {
            Some((_, m)) => {
                proof {
                    let t = choose|t: int| 0 <= t < k && ord[t] == m;
                    assert(among_top(b, sz, player, bm, cm, pvs_root_limit(depth), m));
                    assert(is_ordered_moves(b, sz, player, bm, cm, mv, ord));
                    assert(k == root_limit);
                    assert(ws.len() >= 1);
                    assert(m == ord[last_max_at(ws)]);
                    assert(is_move_list(b, sz, player, bm, cm, mv));
                    assert(rr.sz == sz && rr.border_mode == bm && rr.cap_mode == cm);
                    assert(ws.len() == (if ord.len() < pvs_root_limit(depth) { ord.len() as int } else { pvs_root_limit(depth) }));
                    assert(forall|t: int| 0 <= t < ws.len() ==> root_worth_ok(b, out, player, ord[t], depth as nat, #[trigger] ws[t], rr));
                    assert(pvs_root_best(b, out, player, depth as nat, rr, pvs_root_limit(depth), Some(m)));
                }
                Some(m)
            },
            None => None,
        }
    }
}

/// With no killer move and no history, the search orders a player with pieces by
/// the plain ordering score.
proof fn lemma_fresh_score(s: &PvsSearcher, b: Seq<Seq<Cell>>, sz: usize, player: usize, depth: usize, m: (usize, usize))
    requires
        s.fresh(),
        owns_any(b, player),
        depth < PVS_MAX_DEPTH,
    ensures
        pvs_score(b, sz, player, s.border_mode, s.cap_mode, s.killers0@[depth as int], s.killers1@[depth as int], s.history@, m)
            == move_score(b, sz, player, s.border_mode, s.cap_mode, m),
{
    if m.0 < PVS_HISTORY_SIZE && m.1 < PVS_HISTORY_SIZE {
        assert(m.0 * 40 + m.1 < 1600) by (nonlinear_arith)
            requires
                m.0 < 40,
                m.1 < 40,
        ;
        assert(s.history@[m.0 * 40 + m.1] == 0);
    }
}

/// Chooses a move for `player` by principal-variation search to `depth` plies: no
/// move when there is none, the only move when there is one, a square near the
/// centre for a first move, and otherwise the best of the most promising moves, ten
/// plus two per ply past the first: each valued by a full-window search of its child
/// (or the child's evaluation at depth 0), the last of the best values.
pub fn find_best_move_pvs<M: MlScore>(
    board: &Vec<Vec<Cell>>,
    sz: usize,
    player: usize,
    depth: usize,
    eliminated: &[usize],
    max_players: usize,
    game_count: u32,
    use_ml_eval: bool,
    border_mode: BorderMode,
    cap_mode: CapMode,
    user_random_scale: u32,
    ml: &M,
) -> (r: Option<(usize, usize)>)
    requires
        wf(bview(board), sz as int),
        1 <= sz <= 256,
        max_players <= 10,
        player < 32,
        depth < PVS_MAX_DEPTH,
        forall|k: int| 0 <= k < eliminated@.len() ==> #[trigger] eliminated@[k] < 32,
    ensures
        root_pick(bview(board), sz, player, border_mode, cap_mode, pvs_root_limit(depth), r),
        has_choice(bview(board), sz, player, border_mode, cap_mode) && owns_any(bview(board), player) ==> pvs_root_best(
            bview(board),
            listed_out(eliminated@),
            player,
            depth as nat,
            SearchRules {
                sz,
                ai_player: player,
                max_players,
                game_count,
                border_mode,
                cap_mode,
                user_random_scale,
                use_ml_eval,
                model: model_fn(*ml, border_mode, cap_mode),
            },
            pvs_root_limit(depth),
            r,
        ),
{
    let mut searcher = PvsSearcher::new(player, game_count, use_ml_eval, border_mode, cap_mode, user_random_scale);
    searcher.find_best(board, sz, player, max_players, eliminated, depth, ml)
}

/// The players below `n` that are not in `out` and still have a piece.
pub open spec fn alive_upto(b: Seq<Seq<Cell>>, out: Set<usize>, n: nat) -> nat
    decreases n,
{
    if n == 0 {
        0
    } else {
        let p = (n - 1) as usize;
        alive_upto(b, out, (n - 1) as nat) + if !out.contains(p) && owns_any(b, p) { 1nat } else { 0nat }
    }
}

/// The players in a set of eliminated players.
pub open spec fn out_set(e: ElimSet) -> Set<usize> {
    Set::new(|p: usize| e.has(p))
}

/// Counts the players below `max_players` that are not eliminated and still have a
/// piece.
fn alive_count(board: &Vec<Vec<Cell>>, elim: ElimSet, max_players: usize) -> (r: usize)
    requires
        max_players <= 10,
    ensures
        r == alive_upto(bview(board), out_set(elim), max_players as nat),
        r <= max_players,
{
    let mut cnt: usize = 0;
    let mut p: usize = 0;
    while p < max_players
        invariant
            0 <= p <= max_players <= 10,
            cnt == alive_upto(bview(board), out_set(elim), p as nat),
            cnt <= p,
        decreases max_players - p,
    {
        if !elim.contains(p) && has_pieces(board, p) {
            cnt += 1;
        }
        p += 1;
    }
    cnt
}

/// Whether `m` is a square of `player` that the quiescence search tries: on the
/// board, at least `qs_min` pieces and below the threshold.
pub open spec fn is_explosive(b: Seq<Seq<Cell>>, sz: usize, player: usize, bm: BorderMode, cm: CapMode, m: (usize, usize)) -> bool {
    &&& m.0 < sz && m.1 < sz
    &&& b[m.0 as int][m.1 as int].owner == Some(player)
    &&& b[m.0 as int][m.1 as int].count >= qs_min(m.0, m.1, sz, bm, cm)
    &&& (b[m.0 as int][m.1 as int].count as u32) < sp_cell_threshold(m.0, m.1, sz, bm, cm)
}

/// The squares of the first `n` columns of row `i` that the quiescence search tries,
/// left to right.
pub open spec fn explosive_row(b: Seq<Seq<Cell>>, sz: usize, player: usize, bm: BorderMode, cm: CapMode, i: usize, n: nat) -> Seq<(usize, usize)>
    decreases n,
{
    if n == 0 {
        Seq::<(usize, usize)>::empty()
    } else {
        let s = explosive_row(b, sz, player, bm, cm, i, (n - 1) as nat);
        let m = (i, (n - 1) as usize);
        if is_explosive(b, sz, player, bm, cm, m) { s.push(m) } else { s }
    }
}

/// The squares of the first `n` rows that the quiescence search tries, in row-major
/// order.
pub open spec fn explosive_rows(b: Seq<Seq<Cell>>, sz: usize, player: usize, bm: BorderMode, cm: CapMode, n: nat) -> Seq<(usize, usize)>
    decreases n,
{
    if n == 0 {
        Seq::<(usize, usize)>::empty()
    } else {
        explosive_rows(b, sz, player, bm, cm, (n - 1) as nat) + explosive_row(b, sz, player, bm, cm, (n - 1) as usize, sz as nat)
    }
}

/// The first hundred of a sequence.
pub open spec fn first_hundred(s: Seq<(usize, usize)>) -> Seq<(usize, usize)> {
    if s.len() <= 100 { s } else { s.take(100) }
}

/// The quiescence moves of `player`: the first hundred squares it tries, in
/// row-major order.
pub open spec fn explosive_list(b: Seq<Seq<Cell>>, sz: usize, player: usize, bm: BorderMode, cm: CapMode) -> Seq<(usize, usize)> {
    first_hundred(explosive_rows(b, sz, player, bm, cm, sz as nat))
}

proof fn lemma_first_hundred_push(s: Seq<(usize, usize)>, m: (usize, usize))
    ensures
        first_hundred(s.push(m)) == if first_hundred(s).len() < 100 { first_hundred(s).push(m) } else { first_hundred(s) },
        first_hundred(s).len() <= 100,
{
    if s.len() < 100 {
        assert(first_hundred(s.push(m)) =~= s.push(m));
    } else {
        assert(first_hundred(s.push(m)) =~= s.take(100));
        assert(first_hundred(s) =~= s.take(100));
    }
}

/// The squares of `player` that the quiescence search tries: at least `qs_min`
/// pieces and below the threshold; the first hundred in row-major order.
fn explosive_moves(board: &Vec<Vec<Cell>>, sz: usize, player: usize, border_mode: BorderMode, cap_mode: CapMode) -> (r: Vec<(usize, usize)>)
    requires
        wf(bview(board), sz as int),
        1 <= sz,
    ensures
        r@ == explosive_list(bview(board), sz, player, border_mode, cap_mode),
        r@.len() <= 100,
        forall|t: int| 0 <= t < r@.len() ==> (#[trigger] r@[t]).0 < sz && r@[t].1 < sz
            && bview(board)[r@[t].0 as int][r@[t].1 as int].owner == Some(player)
            && bview(board)[r@[t].0 as int][r@[t].1 as int].count >= qs_min(r@[t].0, r@[t].1, sz, border_mode, cap_mode)
            && (bview(board)[r@[t].0 as int][r@[t].1 as int].count as u32) < sp_cell_threshold(r@[t].0, r@[t].1, sz, border_mode, cap_mode),
{
    let ghost b = bview(board);
    let mut moves: Vec<(usize, usize)> = Vec::new();
    let mut i: usize = 0;
    while i < sz
        invariant
            b == bview(board),
            wf(b, sz as int),
            1 <= sz,
            0 <= i <= sz,
            moves@ == first_hundred(explosive_rows(b, sz, player, border_mode, cap_mode, i as nat)),
            moves@.len() <= 100,
            forall|t: int| 0 <= t < moves@.len() ==> (#[trigger] moves@[t]).0 < sz && moves@[t].1 < sz
                && b[moves@[t].0 as int][moves@[t].1 as int].owner == Some(player)
                && b[moves@[t].0 as int][moves@[t].1 as int].count >= qs_min(moves@[t].0, moves@[t].1, sz, border_mode, cap_mode)
                && (b[moves@[t].0 as int][moves@[t].1 as int].count as u32) < sp_cell_threshold(moves@[t].0, moves@[t].1, sz, border_mode, cap_mode),
        decreases sz - i,
    {
        assert(b[i as int] == board@[i as int]@);
        let ghost pre = explosive_rows(b, sz, player, border_mode, cap_mode, i as nat);
        assert(pre + explosive_row(b, sz, player, border_mode, cap_mode, i, 0) =~= pre);
        let mut j: usize = 0;
        while j < sz
            invariant
                b == bview(board),
                wf(b, sz as int),
                1 <= sz,
                0 <= i < sz,
                0 <= j <= sz,
                b[i as int] == board@[i as int]@,
                pre == explosive_rows(b, sz, player, border_mode, cap_mode, i as nat),
                moves@ == first_hundred(pre + explosive_row(b, sz, player, border_mode, cap_mode, i, j as nat)),
                moves@.len() <= 100,
                forall|t: int| 0 <= t < moves@.len() ==> (#[trigger] moves@[t]).0 < sz && moves@[t].1 < sz
                    && b[moves@[t].0 as int][moves@[t].1 as int].owner == Some(player)
                    && b[moves@[t].0 as int][moves@[t].1 as int].count >= qs_min(moves@[t].0, moves@[t].1, sz, border_mode, cap_mode)
                    && (b[moves@[t].0 as int][moves@[t].1 as int].count as u32) < sp_cell_threshold(moves@[t].0, moves@[t].1, sz, border_mode, cap_mode),
            decreases sz - j,
        {
            let c = board[i][j];
            let corner = (i == 0 || i == sz - 1) && (j == 0 || j == sz - 1);
            let edge = i == 0 || i == sz - 1 || j == 0 || j == sz - 1;
            let min_explosive: u8 = match cap_mode {
                CapMode::Cap3 => 1,
                CapMode::Cap5 => 3,
                CapMode::Random => 2,
                CapMode::Cap4 => match border_mode {
                    BorderMode::Degrade => if corner { 1 } else if edge { 2 } else { 3 },
                    _ => 3,
                },
            };
            let ghost row = explosive_row(b, sz, player, border_mode, cap_mode, i, j as nat);
            proof {
                assert(min_explosive == qs_min(i, j, sz, border_mode, cap_mode));
                lemma_first_hundred_push(pre + row, (i, j));
                assert((pre + row).push((i, j)) =~= pre + row.push((i, j)));
            }
            if c.owner == Some(player) && c.count >= min_explosive
                && (c.count as u32) < cell_threshold(i, j, sz, border_mode, cap_mode) {
                if moves.len() < 100 {
                    moves.push((i, j));
                }
            }
            j += 1;
        }
        i += 1;
    }
    moves
}

/// `e1` holds the players of `e0` and those of `new_elim` below 32.
pub open spec fn elim_grown(e0: ElimSet, e1: ElimSet, new_elim: Seq<usize>) -> bool {
    forall|p: usize| #[trigger] e1.has(p) <==> (e0.has(p) || (p < 32 && new_elim.contains(p)))
}

/// Plays `m` for `player` on a copy of the board and adds the players it eliminates
/// to `elim`.
fn play_es(
    board: &Vec<Vec<Cell>>,
    sz: usize,
    m: (usize, usize),
    player: usize,
    max_players: usize,
    border_mode: BorderMode,
    cap_mode: CapMode,
    elim: ElimSet,
) -> (r: (Vec<Vec<Cell>>, ElimSet))
    requires
        wf(bview(board), sz as int),
        m.0 < sz,
        m.1 < sz,
        bview(board)[m.0 as int][m.1 as int].owner == Some(player) ==> bview(board)[m.0 as int][m.1 as int].count < 255,
    ensures
        wf(bview(&r.0), sz as int),
        es_ply(bview(board), out_set(elim), player, m, bview(&r.0), out_set(r.1), sz, border_mode, cap_mode),
        exists|new_elim: Seq<usize>, chain_count: u32|
            #[trigger] click_result_any(bview(board), bview(&r.0), sz, m.0, m.1, player, border_mode, cap_mode, new_elim, chain_count)
                && elim_grown(elim, r.1, new_elim),
{
    let mut child = copy_board(board);
    let (new_elim, chain_count) = process_click(&mut child, sz, m.0, m.1, player, max_players, border_mode, cap_mode, Some(0));
    assert(click_result_any(bview(board), bview(&child), sz, m.0, m.1, player, border_mode, cap_mode, new_elim@, chain_count));
    let mut child_elim = elim;
    let mut k: usize = 0;
    while k < new_elim.len()
        invariant
            0 <= k <= new_elim@.len(),
            forall|p: usize| #[trigger] child_elim.has(p) <==> (elim.has(p) || (p < 32 && exists|t: int| 0 <= t < k && new_elim@[t] == p)),
        decreases new_elim@.len() - k,
    {
        let e = new_elim[k];
        if e < 32 {
            child_elim.add(e);
        }
        proof {
            assert forall|p: usize| #[trigger] child_elim.has(p) <==> (elim.has(p) || (p < 32 && exists|t: int| 0 <= t < k + 1 && new_elim@[t] == p)) by {
                if p == e {
                    assert(new_elim@[k as int] == p);
                }
            }
        }
        k += 1;
    }
    proof {
        assert forall|p: usize| #[trigger] child_elim.has(p) <==> (elim.has(p) || (p < 32 && new_elim@.contains(p))) by {
            if p < 32 && new_elim@.contains(p) {
                let t = choose|t: int| 0 <= t < new_elim@.len() && new_elim@[t] == p;
            }
        }
        assert(elim_grown(elim, child_elim, new_elim@));
        assert(out_set(child_elim) =~= grown(out_set(elim), new_elim@));
        assert(click_result_any(bview(board), bview(&child), sz, m.0, m.1, player, border_mode, cap_mode, new_elim@, chain_count)
            && elim_grown(elim, child_elim, new_elim@));
        assert(exists|ne: Seq<usize>, cc: u32| #[trigger] click_result_any(bview(board), bview(&child), sz, m.0, m.1, player, border_mode, cap_mode, ne, cc)
            && elim_grown(elim, child_elim, ne));
    }
    (child, child_elim)
}

} // verus!
