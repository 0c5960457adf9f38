use crate::board::{bview, get_moves, has_pieces, is_move_list, legal_move, lex_lt, owns_any, wf, BorderMode, CapMode, Cell};
use crate::chain::copy_board;
use crate::minimax::{
    child_value, child_values, grade_fold, grade_hi, grade_lo, grade_lt, in_window, leaf_grade, lemma_child_of, lemma_grade_order, lemma_max_step,
    lemma_min_step, lemma_moves_of, lemma_node_max, lemma_node_min, minimax, SearchRules, best_searched, last_best, search_depth,
};
use crate::eval::{eval_board, eval_value, model_fn, MlScore};
use crate::sim::alive_seq;
use crate::order::{is_ordered_moves, order_moves};
use crate::search::{contains_player, first_move_center, first_move_spec, in_tier, play_move, ply, tier_empty};
use vstd::prelude::*;

verus! {

/// Evaluation value of a position: a loss, a score, or a win for the searching
/// player; `Min < Score(n) < Max`, scores by value.
#[derive(Clone, Copy, Debug, PartialEq, Eq, Structural)]
pub enum Grade {
    Min,
    Score(i64),
    Max,
}

/// The order of grades.
pub open spec fn grade_le(a: Grade, b: Grade) -> bool {
    match (a, b) {
        (Grade::Min, _) => true,
        (_, Grade::Max) => true,
        (Grade::Score(x), Grade::Score(y)) => x <= y,
        _ => false,
    }
}

/// Whether `a` is at most `b`.
pub fn grade_leq(a: Grade, b: Grade) -> (r: bool)
    ensures
        r == grade_le(a, b),
{
    match (a, b) {
        (Grade::Min, _) => true,
        (_, Grade::Max) => true,
        (Grade::Score(x), Grade::Score(y)) => x <= y,
        _ => false,
    }
}

/// The larger grade (the second on ties).
pub fn grade_max(a: Grade, b: Grade) -> (r: Grade)
    ensures
        r == if grade_le(a, b) { b } else { a },
{
    if grade_leq(a, b) { b } else { a }
}

/// The smaller grade (the first on ties).
pub fn grade_min(a: Grade, b: Grade) -> (r: Grade)
    ensures
        r == if grade_le(a, b) { a } else { b },
{
    if grade_leq(a, b) { a } else { b }
}

/// A searched position.
pub struct GameState {
    pub board: Vec<Vec<Cell>>,
    pub sz: usize,
    pub player: usize,
    pub ai_player: usize,
    pub eliminated: Vec<usize>,
    pub max_players: usize,
    pub game_count: u32,
    pub use_ml_eval: bool,
    pub border_mode: BorderMode,
    pub cap_mode: CapMode,
    pub user_random_scale: u32,
}

/// A square board of at most 256 rows.
pub open spec fn state_ok(st: &GameState) -> bool {
    &&& wf(bview(&st.board), st.sz as int)
    &&& 1 <= st.sz <= 256
}

/// A copy of a list of players.
fn copy_players(v: &Vec<usize>) -> (r: Vec<usize>)
    ensures
        r@ == v@,
{
    let mut r: Vec<usize> = Vec::new();
    let mut k: usize = 0;
    while k < v.len()
        invariant
            0 <= k <= v@.len(),
            r@ == v@.take(k as int),
        decreases v@.len() - k,
    {
        r.push(v[k]);
        assert(r@ =~= v@.take(k + 1));
        k += 1;
    }
    assert(r@ =~= v@);
    r
}

/// A copy of a search state.
fn clone_state(st: &GameState) -> (r: GameState)
    requires
        state_ok(st),
    ensures
        state_ok(&r),
        bview(&r.board) == bview(&st.board),
        r.sz == st.sz,
        r.player == st.player,
        r.ai_player == st.ai_player,
        r.eliminated@ == st.eliminated@,
        r.max_players == st.max_players,
        r.game_count == st.game_count,
        r.use_ml_eval == st.use_ml_eval,
        r.border_mode == st.border_mode,
        r.cap_mode == st.cap_mode,
        r.user_random_scale == st.user_random_scale,
{
    GameState {
        board: copy_board(&st.board),
        sz: st.sz,
        player: st.player,
        ai_player: st.ai_player,
        eliminated: copy_players(&st.eliminated),
        max_players: st.max_players,
        game_count: st.game_count,
        use_ml_eval: st.use_ml_eval,
        border_mode: st.border_mode,
        cap_mode: st.cap_mode,
        user_random_scale: st.user_random_scale,
    }
}

/// A win when the searching player is the last one standing, a loss when it is out,
/// the evaluation otherwise.
fn ab_evaluate<M: MlScore>(st: &GameState, ml: &M) -> (r: Grade)
    requires
        state_ok(st),
    ensures
        st.eliminated@.contains(st.ai_player) ==> r == Grade::Min,
        !st.eliminated@.contains(st.ai_player)
            && alive_seq(bview(&st.board), st.eliminated@, st.max_players as nat) == seq![st.ai_player]
            ==> r == Grade::Max,
        !st.eliminated@.contains(st.ai_player)
            && alive_seq(bview(&st.board), st.eliminated@, st.max_players as nat) != seq![st.ai_player]
            ==> (r matches Grade::Score(v) && v as int == eval_value(bview(&st.board), st.ai_player, st.game_count, st.use_ml_eval,
                st.border_mode, st.cap_mode, st.user_random_scale, model_fn(*ml, st.border_mode, st.cap_mode))),
        r == leaf_grade(bview(&st.board), st.eliminated@, rules_of(st, *ml)),
{
    if contains_player(&st.eliminated, st.ai_player) {
        return Grade::Min;
    }
    let ghost a = alive_seq(bview(&st.board), st.eliminated@, st.max_players as nat);
    let mut alive_count: usize = 0;
    let mut first: usize = 0;
    let mut p: usize = 0;
    while p < st.max_players
        invariant
            state_ok(st),
            0 <= p <= st.max_players,
            alive_count <= p,
            alive_count == alive_seq(bview(&st.board), st.eliminated@, p as nat).len(),
            alive_count > 0 ==> first == alive_seq(bview(&st.board), st.eliminated@, p as nat)[0],
        decreases st.max_players - p,
    {
        let ghost prev = alive_seq(bview(&st.board), st.eliminated@, p as nat);
        if !contains_player(&st.eliminated, p) && has_pieces(&st.board, p) {
            if alive_count == 0 {
                first = p;
            }
            assert(alive_seq(bview(&st.board), st.eliminated@, (p + 1) as nat) == prev.push(p));
            alive_count += 1;
        }
        p += 1;
    }
    if alive_count == 1 && first == st.ai_player {
        assert(a =~= seq![st.ai_player]);
        return Grade::Max;
    }
    assert(a != seq![st.ai_player]) by {
        if a == seq![st.ai_player] {
            assert(a.len() == 1 && a[0] == st.ai_player);
        }
    }
    let e = eval_board(
        &st.board,
        st.ai_player,
        st.game_count,
        st.use_ml_eval,
        st.border_mode,
        st.cap_mode,
        st.user_random_scale,
        ml,
    );
    Grade::Score(e as i64)
}

/// The fixed parameters of a searched position.
pub open spec fn rules_of<M: MlScore>(st: &GameState, ml: M) -> SearchRules {
    SearchRules {
        sz: st.sz,
        ai_player: st.ai_player,
        max_players: st.max_players,
        game_count: st.game_count,
        border_mode: st.border_mode,
        cap_mode: st.cap_mode,
        user_random_scale: st.user_random_scale,
        use_ml_eval: st.use_ml_eval,
        model: model_fn(ml, st.border_mode, st.cap_mode),
    }
}

/// The same search parameters.
pub open spec fn same_rules(a: &GameState, b: &GameState) -> bool {
    &&& a.sz == b.sz
    &&& a.ai_player == b.ai_player
    &&& a.max_players == b.max_players
    &&& a.game_count == b.game_count
    &&& a.border_mode == b.border_mode
    &&& a.cap_mode == b.cap_mode
    &&& a.user_random_scale == b.user_random_scale
    &&& a.use_ml_eval == b.use_ml_eval
}

/// Plays move `m` for the player to move and passes the turn to the next live player.
fn ab_set(st: &mut GameState, m: (usize, usize))
    requires
        state_ok(old(st)),
        legal_move(bview(&old(st).board), old(st).sz, old(st).player, old(st).border_mode, old(st).cap_mode, m),
    ensures
        state_ok(final(st)),
        same_rules(old(st), final(st)),
        ply(
            bview(&old(st).board),
            old(st).eliminated@,
            old(st).player,
            m,
            bview(&final(st).board),
            final(st).eliminated@,
            final(st).player,
            old(st).sz,
            old(st).max_players,
            old(st).border_mode,
            old(st).cap_mode,
        ),
{
    let next = play_move(&mut st.board, st.sz, m, st.player, st.max_players, &mut st.eliminated, st.border_mode, st.cap_mode);
    st.player = next;
}

/// Fail-soft alpha-beta search below a position; the node maximises when the
/// searching player is to move. Children are searched in `order_moves` order on
/// copies. The answer is within the window of the minimax value (every move is
/// played with one seed, so it has one outcome).
fn ab_search<M: MlScore>(st: &GameState, alpha0: Grade, beta0: Grade, depth: usize, ml: &M) -> (r: Grade)
    requires
        state_ok(st),
    ensures
        grade_lt(alpha0, beta0) ==> in_window(
            r,
            alpha0,
            beta0,
            minimax(bview(&st.board), st.eliminated@, st.player, depth as nat, rules_of(st, *ml)),
        ),
    decreases depth,
{
    let ghost b = bview(&st.board);
    let ghost e = st.eliminated@;
    let ghost pl = st.player;
    let ghost rr = rules_of(st, *ml);
    let ghost p = grade_lt(alpha0, beta0);
    let moves = get_moves(&st.board, st.sz, st.player, None, st.border_mode, st.cap_mode);
    proof {
        lemma_moves_of(b, pl, rr, moves@);
    }
    if depth == 0 || moves.len() == 0 {
        let r = ab_evaluate(st, ml);
        proof {
            lemma_grade_order(r, alpha0, beta0);
        }
        return r;
    }
    proof {
        assert forall|k: int| 0 <= k < moves@.len() implies (#[trigger] moves@[k]).0 < st.sz && moves@[k].1 < st.sz by {
            assert(legal_move(bview(&st.board), st.sz, st.player, st.border_mode, st.cap_mode, moves@[k]));
        }
    }
    let ghost mv = moves@;
    let ordered = order_moves(moves, &st.board, st.sz, st.player, st.border_mode, st.cap_mode);
    let ghost ord = ordered@;
    let ghost d1 = (depth - 1) as nat;
    proof {
        assert forall|t: int| 0 <= t < ordered@.len() implies
            legal_move(bview(&st.board), st.sz, st.player, st.border_mode, st.cap_mode, #[trigger] ordered@[t]) by {
            assert(ordered@.contains(ordered@[t]));
            assert(mv.contains(ordered@[t]));
            let c = choose|c: int| 0 <= c < mv.len() && mv[c] == ordered@[t];
            assert(legal_move(bview(&st.board), st.sz, st.player, st.border_mode, st.cap_mode, mv[c]));
        }
    }
    let mut alpha = alpha0;
    let mut beta = beta0;
    let is_max = st.player == st.ai_player;
    let mut best = if is_max { Grade::Min } else { Grade::Max };
    let mut cut = false;
    let mut k: usize = 0;
    while k < ordered.len() && !cut
        invariant
            state_ok(st),
            depth > 0,
            b == bview(&st.board),
            e == st.eliminated@,
            pl == st.player,
            rr == rules_of(st, *ml),
            d1 == depth - 1,
            p == grade_lt(alpha0, beta0),
            is_max == (st.player == st.ai_player),
            ord == ordered@,
            0 <= k <= ord.len(),
            forall|t: int| 0 <= t < ord.len() ==>
                legal_move(bview(&st.board), st.sz, st.player, st.border_mode, st.cap_mode, #[trigger] ord[t]),
            p && is_max ==> alpha == grade_hi(alpha0, best) && beta == beta0,
            p && !is_max ==> beta == grade_lo(beta0, best) && alpha == alpha0,
            p && !cut ==> grade_lt(alpha, beta),
            p && !cut && is_max ==> forall|j: int| 0 <= j < k ==> grade_le(#[trigger] child_value(b, e, pl, ord[j], d1, rr), best),
            p && !cut && !is_max ==> forall|j: int| 0 <= j < k ==> grade_le(best, #[trigger] child_value(b, e, pl, ord[j], d1, rr)),
            p && !cut && is_max && grade_lt(alpha0, best) ==> exists|j: int| 0 <= j < k && #[trigger] child_value(b, e, pl, ord[j], d1, rr) == best,
            p && !cut && !is_max && grade_lt(best, beta0) ==> exists|j: int| 0 <= j < k && #[trigger] child_value(b, e, pl, ord[j], d1, rr) == best,
            p && cut && is_max ==> grade_le(beta0, best),
            p && cut && is_max ==> exists|j: int| 0 <= j < k && grade_le(best, #[trigger] child_value(b, e, pl, ord[j], d1, rr)),
            p && cut && !is_max ==> grade_le(best, alpha0),
            p && cut && !is_max ==> exists|j: int| 0 <= j < k && grade_le(#[trigger] child_value(b, e, pl, ord[j], d1, rr), best),
        decreases ord.len() - k,
    {
        let m = ordered[k];
        let mut child = clone_state(st);
        ab_set(&mut child, m);
        let ghost v = child_value(b, e, pl, m, d1, rr);
        proof {
            if p {
                lemma_child_of(b, e, pl, m, bview(&child.board), child.eliminated@, child.player, rr);
            }
        }
        let g = ab_search(&child, alpha, beta, depth - 1, ml);
        if is_max {
            proof {
                if p {
                    lemma_max_step(alpha0, beta0, best, g, v);
                }
            }
            best = grade_max(best, g);
            alpha = grade_max(alpha, g);
        } else {
            proof {
                if p {
                    lemma_min_step(alpha0, beta0, best, g, v);
                }
            }
            best = grade_min(best, g);
            beta = grade_min(beta, g);
        }
        if grade_leq(beta, alpha) {
            cut = true;
        }
        k += 1;
    }
    proof {
        if p {
            assert(minimax(b, e, pl, depth as nat, rr) == grade_fold(child_values(b, e, pl, mv, d1, rr), is_max));
            if is_max {
                lemma_node_max(b, e, pl, mv, ord, d1, rr, alpha0, beta0, best, cut);
            } else {
                lemma_node_min(b, e, pl, mv, ord, d1, rr, alpha0, beta0, best, cut);
            }
        }
    }
    best
}

/// `m` is the only legal move of `player`.
pub open spec fn only_move(b: Seq<Seq<Cell>>, sz: usize, player: usize, bm: BorderMode, cm: CapMode, m: (usize, usize)) -> bool {
    &&& legal_move(b, sz, player, bm, cm, m)
    &&& forall|m2: (usize, usize)| legal_move(b, sz, player, bm, cm, m2) ==> m2 == m
}

/// `player` has at least two legal moves.
pub open spec fn has_choice(b: Seq<Seq<Cell>>, sz: usize, player: usize, bm: BorderMode, cm: CapMode) -> bool {
    exists|m1: (usize, usize), m2: (usize, usize)|
        m1 != m2 && legal_move(b, sz, player, bm, cm, m1) && legal_move(b, sz, player, bm, cm, m2)
}

/// `m` is among the first `limit` moves once the legal moves are ordered by
/// `order_moves`.
pub open spec fn among_top(b: Seq<Seq<Cell>>, sz: usize, player: usize, bm: BorderMode, cm: CapMode, limit: int, m: (usize, usize)) -> bool {
    exists|mv: Seq<(usize, usize)>, ord: Seq<(usize, usize)>, k: int|
        is_move_list(b, sz, player, bm, cm, mv)
            && is_ordered_moves(b, sz, player, bm, cm, mv, ord)
            && 0 <= k < limit && k < ord.len() && ord[k] == m
}

/// What a root search may answer: nothing exactly when there is no legal move, the
/// only move when there is one, the centre pick for a player without pieces, and
/// otherwise one of the `limit` best-ordered moves.
pub open spec fn root_pick(b: Seq<Seq<Cell>>, sz: usize, player: usize, bm: BorderMode, cm: CapMode, limit: int, r: Option<(usize, usize)>) -> bool {
    &&& (r is None <==> forall|m: (usize, usize)| !legal_move(b, sz, player, bm, cm, m))
    &&& (r matches Some(m) ==> legal_move(b, sz, player, bm, cm, m))
    &&& forall|m: (usize, usize)| only_move(b, sz, player, bm, cm, m) ==> r == Some(m)
    &&& (has_choice(b, sz, player, bm, cm) && !owns_any(b, player) ==> first_move_spec(b, sz, r))
    &&& (has_choice(b, sz, player, bm, cm) && owns_any(b, player) ==>
        (r matches Some(m) && among_top(b, sz, player, bm, cm, limit, m)))
}

pub(crate) proof fn lemma_move_list_facts(b: Seq<Seq<Cell>>, sz: usize, player: usize, bm: BorderMode, cm: CapMode, mv: Seq<(usize, usize)>)
    requires
        is_move_list(b, sz, player, bm, cm, mv),
    ensures
        mv.len() == 0 <==> forall|m: (usize, usize)| !legal_move(b, sz, player, bm, cm, m),
        mv.len() == 1 ==> only_move(b, sz, player, bm, cm, mv[0]),
        mv.len() >= 2 ==> has_choice(b, sz, player, bm, cm),
        mv.len() >= 2 ==> forall|m: (usize, usize)| !only_move(b, sz, player, bm, cm, m),
        mv.len() == 1 ==> !has_choice(b, sz, player, bm, cm),
{
    if mv.len() == 0 {
        assert forall|m: (usize, usize)| !legal_move(b, sz, player, bm, cm, m) by {
            if legal_move(b, sz, player, bm, cm, m) {
                assert(mv.contains(m));
            }
        }
    } else {
        assert(legal_move(b, sz, player, bm, cm, mv[0]));
    }
    if mv.len() == 1 {
        assert forall|m2: (usize, usize)| legal_move(b, sz, player, bm, cm, m2) implies m2 == mv[0] by {
            assert(mv.contains(m2));
        }
    }
    if mv.len() >= 2 {
        assert(legal_move(b, sz, player, bm, cm, mv[1]));
        assert(mv[0] != mv[1]) by {
            assert(lex_lt(mv[0], mv[1]));
        }
        assert forall|m: (usize, usize)| !only_move(b, sz, player, bm, cm, m) by {
            if only_move(b, sz, player, bm, cm, m) {
                assert(mv[0] == m && mv[1] == m);
            }
        }
    }
}

/// The root of the alpha-beta search: the only move when there is one, the centre
/// pick for a first move, and otherwise the best of the ten best-ordered moves by
/// searched grade (the last of equal grades).
fn ab_run<M: MlScore>(st: &GameState, depth: usize, ml: &M) -> (r: Option<(usize, usize)>)
    requires
        state_ok(st),
        st.ai_player == st.player,
    ensures
        root_pick(bview(&st.board), st.sz, st.player, st.border_mode, st.cap_mode, 10, r),
        has_choice(bview(&st.board), st.sz, st.player, st.border_mode, st.cap_mode)
            && owns_any(bview(&st.board), st.player) ==> best_searched(
            bview(&st.board),
            st.eliminated@,
            st.player,
            depth as nat,
            rules_of(st, *ml),
            10,
            r,
        ),
{
    let ghost b = bview(&st.board);
    let all_moves = get_moves(&st.board, st.sz, st.player, None, st.border_mode, st.cap_mode);
    let ghost mv = all_moves@;
    proof {
        lemma_move_list_facts(b, st.sz, st.player, st.border_mode, st.cap_mode, mv);
    }
    if all_moves.len() == 0 {
        return None;
    }
    if all_moves.len() == 1 {
        return Some(all_moves[0]);
    }
    if !has_pieces(&st.board, st.player) {
        let r = first_move_center(&st.board, st.sz);
        proof {
            let m0 = mv[0];
            assert(legal_move(b, st.sz, st.player, st.border_mode, st.cap_mode, m0));
            assert(in_tier(b, st.sz, 1, m0));
            assert(!tier_empty(b, st.sz, 1));
        }
        return r;
    }
    proof {
        assert forall|k: int| 0 <= k < mv.len() implies (#[trigger] mv[k]).0 < st.sz && mv[k].1 < st.sz by {
            assert(legal_move(b, st.sz, st.player, st.border_mode, st.cap_mode, mv[k]));
        }
    }
    let ordered = order_moves(all_moves, &st.board, st.sz, st.player, st.border_mode, st.cap_mode);
    let ghost ord = ordered@;
    proof {
        assert forall|t: int| 0 <= t < ord.len() implies
            legal_move(b, st.sz, st.player, st.border_mode, st.cap_mode, #[trigger] ord[t]) by {
            assert(ord.contains(ord[t]));
            assert(mv.contains(ord[t]));
            let c = choose|c: int| 0 <= c < mv.len() && mv[c] == ord[t];
            assert(legal_move(b, st.sz, st.player, st.border_mode, st.cap_mode, mv[c]));
        }
    }
    let max_eval: usize = if ordered.len() < 10 { ordered.len() } else { 10 };
    let ghost e = st.eliminated@;
    let ghost pl = st.player;
    let ghost rr = rules_of(st, *ml);
    let ghost sd = search_depth(depth as nat);
    let mut best: Option<(Grade, (usize, usize))> = None;
    let mut k: usize = 0;
    while k < max_eval
        invariant
            state_ok(st),
            b == bview(&st.board),
            e == st.eliminated@,
            pl == st.player,
            rr == rules_of(st, *ml),
            sd == search_depth(depth as nat),
            ord == ordered@,
            max_eval <= ordered@.len(),
            max_eval <= 10,
            0 <= k <= max_eval,
            forall|t: int| 0 <= t < ord.len() ==>
                legal_move(b, st.sz, st.player, st.border_mode, st.cap_mode, #[trigger] ord[t]),
            k == 0 <==> best is None,
            best matches Some(p) ==> exists|t: int| 0 <= t < k && ord[t] == p.1,
            k > 0 ==> (best matches Some(p) && p.1 == last_best(ord.take(k as int), b, e, pl, sd, rr)
                && p.0 == child_value(b, e, pl, p.1, sd, rr)),
        decreases max_eval - k,
    {
        let m = ordered[k];
        let mut child = clone_state(st);
        ab_set(&mut child, m);
        proof {
            lemma_child_of(b, e, pl, m, bview(&child.board), child.eliminated@, child.player, rr);
        }
        let g = if depth > 0 {
            ab_search(&child, Grade::Min, Grade::Max, depth - 1, ml)
        } else {
            ab_evaluate(&child, ml)
        };
        proof {
            let v = child_value(b, e, pl, m, sd, rr);
            lemma_grade_order(g, v, Grade::Min);
            lemma_grade_order(g, v, Grade::Max);
            assert(g == v);
            assert(ord.take(k + 1).drop_last() =~= ord.take(k as int));
            assert(ord.take(k + 1).last() == m);
        }
        match best {
            None => {
                best = Some((g, m));
            },
            Some((bg, _)) => {
                if grade_leq(bg, g) {
                    best = Some((g, m));
                }
            },
        }
        k += 1;
    }
    match best {
        Some((_, m)) => {
            proof {
                let t = choose|t: int| 0 <= t < k && ord[t] == m;
                assert(among_top(b, st.sz, st.player, st.border_mode, st.cap_mode, 10, m));
                assert(is_move_list(b, st.sz, st.player, st.border_mode, st.cap_mode, mv)
                    && is_ordered_moves(b, st.sz, st.player, st.border_mode, st.cap_mode, mv, ord));
            }
            Some(m)
        },
        None => None,
    }
}

/// Chooses a move for `player` by alpha-beta search to `depth` plies: no move when
/// there is none, the only move when there is one, a square near the centre for a
/// first move, and otherwise the best of the ten most promising moves: the one whose
/// child has the best minimax value, the last of equals (every move is played with
/// one seed, so it has one outcome), with the learned evaluation or without it.
pub fn find_best_move<M: MlScore>(
    board: &Vec<Vec<Cell>>,
    sz: usize,
    player: usize,
    depth: usize,
    eliminated: &[usize],
    max_players: usize,
    game_count: u32,
    _first_move_pos: Option<[usize; 2]>,
    use_ml_eval: bool,
    border_mode: BorderMode,
    cap_mode: CapMode,
    user_random_scale: u32,
    ml: &M,
) -> (r: Option<(usize, usize)>)
    requires
        wf(bview(board), sz as int),
        1 <= sz <= 256,
    ensures
        root_pick(bview(board), sz, player, border_mode, cap_mode, 10, r),
        has_choice(bview(board), sz, player, border_mode, cap_mode)
            && owns_any(bview(board), player) ==> best_searched(
            bview(board),
            eliminated@,
            player,
            depth as nat,
            SearchRules {
                sz,
                ai_player: player,
                max_players,
                game_count,
                border_mode,
                cap_mode,
                user_random_scale,
                use_ml_eval,
                model: model_fn(*ml, border_mode, cap_mode),
            },
            10,
            r,
        ),
{
    let mut elim: Vec<usize> = Vec::new();
    let mut k: usize = 0;
    while k < eliminated.len()
        invariant
            0 <= k <= eliminated@.len(),
            elim@ == eliminated@.take(k as int),
        decreases eliminated@.len() - k,
    {
        elim.push(eliminated[k]);
        assert(elim@ =~= eliminated@.take(k + 1));
        k += 1;
    }
    assert(elim@ =~= eliminated@);
    let state = GameState {
        board: copy_board(board),
        sz,
        player,
        ai_player: player,
        eliminated: elim,
        max_players,
        game_count,
        use_ml_eval,
        border_mode,
        cap_mode,
        user_random_scale,
    };
    ab_run(&state, depth, ml)
}

} // verus!
