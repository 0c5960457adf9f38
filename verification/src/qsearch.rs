//! What the principal-variation search and its quiescence search compute; every
//! move, played with the searches' seed, has one outcome.
use crate::board::{wf, BorderMode, CapMode, Cell};
use crate::chain::{click_result_any, seeded_click};
use crate::minimax::{moves_of, search_eval, SearchRules};
use crate::pvs::{alive_upto, explosive_list};
use crate::search::next_live;
use vstd::prelude::*;

verus! {

/// The score of a lost position for the player to move, and of a won one.
pub open spec fn lost_score() -> int {
    i32::MIN + 1000
}

/// The score of a won position for the player to move.
pub open spec fn won_score() -> int {
    i32::MAX - 1000
}

/// The players out after a move that eliminated `el`: those of `out`, and those of
/// `el` that a set of eliminated players can hold (numbers below 32).
pub open spec fn grown(out: Set<usize>, el: Seq<usize>) -> Set<usize> {
    out.union(Set::new(|p: usize| p < 32 && el.contains(p)))
}

/// A move of the principal-variation search: `player` plays `m` on `b`, which becomes
/// `b2`, and the players it eliminates join `out`, giving `out2`.
pub open spec fn es_ply(
    b: Seq<Seq<Cell>>,
    out: Set<usize>,
    player: usize,
    m: (usize, usize),
    b2: Seq<Seq<Cell>>,
    out2: Set<usize>,
    sz: usize,
    bm: BorderMode,
    cm: CapMode,
) -> bool {
    &&& wf(b2, sz as int)
    &&& exists|el: Seq<usize>, cc: u32|
        #[trigger] click_result_any(b, b2, sz, m.0, m.1, player, bm, cm, el, cc) && out2 == grown(out, el)
    &&& b2 == seeded_click(b, sz, m.0, m.1, player, bm, cm, 0, false).0
    &&& out2 == grown(out, seeded_click(b, sz, m.0, m.1, player, bm, cm, 0, false).1)
}

/// The position after `player` plays `m`: the board and the players out.
pub closed spec fn es_child(b: Seq<Seq<Cell>>, out: Set<usize>, player: usize, m: (usize, usize), r: SearchRules) -> (Seq<Seq<Cell>>, Set<usize>) {
    choose|c: (Seq<Seq<Cell>>, Set<usize>)| es_ply(b, out, player, m, c.0, c.1, r.sz, r.border_mode, r.cap_mode)
}

/// The position a move reaches is the one `es_child` names: the searches play every
/// move with the same seed.
pub proof fn lemma_es_child(
    b: Seq<Seq<Cell>>,
    out: Set<usize>,
    player: usize,
    m: (usize, usize),
    b2: Seq<Seq<Cell>>,
    out2: Set<usize>,
    r: SearchRules,
)
    requires
        es_ply(b, out, player, m, b2, out2, r.sz, r.border_mode, r.cap_mode),
    ensures
        es_child(b, out, player, m, r) == (b2, out2),
{
    let w = (b2, out2);
    assert(es_ply(b, out, player, m, w.0, w.1, r.sz, r.border_mode, r.cap_mode));
}

/// The fold is at least `acc` and every score, and below any bound they are all below.
pub proof fn lemma_max_fold(acc: int, s: Seq<int>, bound: int)
    ensures
        acc <= max_fold(acc, s),
        forall|k: int| 0 <= k < s.len() ==> s[k] <= max_fold(acc, s),
        acc < bound && (forall|k: int| 0 <= k < s.len() ==> s[k] < bound) ==> max_fold(acc, s) < bound,
    decreases s.len(),
{
    if s.len() > 0 {
        let t = s.drop_last();
        lemma_max_fold(acc, t, bound);
        assert forall|k: int| 0 <= k < s.len() implies s[k] <= max_fold(acc, s) by {
            if k < t.len() {
                assert(s[k] == t[k]);
            }
        }
        if acc < bound && (forall|k: int| 0 <= k < s.len() ==> s[k] < bound) {
            assert forall|k: int| 0 <= k < t.len() implies t[k] < bound by {
                assert(s[k] == t[k]);
            }
            assert(s[s.len() - 1] < bound);
        }
    }
}

/// The quiescence value of a position, one ply unfolded.
pub proof fn lemma_q_value_unfold(b: Seq<Seq<Cell>>, out: Set<usize>, player: usize, d: nat, r: SearchRules)
    ensures
        es_terminal(b, out, player, r) matches Some(v) ==> q_value(b, out, player, d, r) == v,
        es_terminal(b, out, player, r) is None && d >= 3 ==> q_value(b, out, player, d, r) == pvs_eval(b, player, r),
        es_terminal(b, out, player, r) is None && d < 3 ==> q_value(b, out, player, d, r) == max_fold(
            pvs_eval(b, player, r),
            q_scores(b, out, player, explosive_list(b, r.sz, player, r.border_mode, r.cap_mode), d + 1, r),
        ),
{
}

/// The worth of the `k`-th quiescence move is the negated value of the position it
/// reaches.
pub proof fn lemma_q_score_at(
    b: Seq<Seq<Cell>>,
    out: Set<usize>,
    player: usize,
    ms: Seq<(usize, usize)>,
    k: int,
    d: nat,
    cb: Seq<Seq<Cell>>,
    cout: Set<usize>,
    next: usize,
    r: SearchRules,
)
    requires
        0 <= k < ms.len(),
        es_ply(b, out, player, ms[k], cb, cout, r.sz, r.border_mode, r.cap_mode),
        next == es_next(cb, cout, player, r),
    ensures
        q_scores(b, out, player, ms, d, r)[k] == -q_value(cb, cout, next, d, r),
{
    lemma_es_child(b, out, player, ms[k], cb, cout, r);
}

/// There is one worth per move.
pub proof fn lemma_q_scores_len(b: Seq<Seq<Cell>>, out: Set<usize>, player: usize, ms: Seq<(usize, usize)>, d: nat, r: SearchRules)
    ensures
        q_scores(b, out, player, ms, d, r).len() == ms.len(),
{
}

/// Folding one more score.
pub proof fn lemma_fold_take(acc: int, s: Seq<int>, k: int)
    requires
        0 <= k < s.len(),
    ensures
        max_fold(acc, s.take(k + 1)) == (if s[k] > max_fold(acc, s.take(k)) { s[k] } else { max_fold(acc, s.take(k)) }),
{
    assert(s.take(k + 1).drop_last() =~= s.take(k));
    assert(s.take(k + 1).last() == s[k]);
}

/// One quiescence move, seen from the node: the child answered `v` with the window
/// `(-bt, -a)` for its value `qc`, so the move is worth `s = -qc`; the node's lower
/// bound `a` (the larger of `alpha` and the best so far, `mf`) moves to `s` when `s`
/// beats it, and the node cuts off exactly when `s` reaches `bt`.
pub proof fn lemma_q_step(alpha: int, a: int, bt: int, mf: int, mf2: int, v: int, qc: int, s: int)
    requires
        a < bt,
        (v <= -bt) == (qc <= -bt),
        (v >= -a) == (qc >= -a),
        -bt < v < -a ==> v == qc,
        s == -qc,
        a == (if alpha > mf { alpha } else { mf }),
        mf2 == (if s > mf { s } else { mf }),
    ensures
        -v >= bt ==> s >= bt,
        -v < bt ==> s < bt && (if -v > a { -v } else { a }) == (if alpha > mf2 { alpha } else { mf2 }),
{
}

/// The quiescence answer of an ended position or of the last ply is its value; of
/// any other position, its value held within the window.
pub proof fn lemma_q_result_unfold(b: Seq<Seq<Cell>>, out: Set<usize>, player: usize, d: nat, a: int, bt: int, r: SearchRules)
    ensures
        es_terminal(b, out, player, r) is Some || d >= 3 ==> q_result(b, out, player, d, a, bt, r) == q_value(b, out, player, d, r),
        es_terminal(b, out, player, r) is None && d < 3 ==> q_result(b, out, player, d, a, bt, r) == clamp(q_value(b, out, player, d, r), a, bt),
{
}

/// The quiescence answer tells of the value what a fail-hard window tells: at most
/// `a` exactly when the value is, at least `bt` exactly when the value is, and the
/// value itself strictly in between.
pub proof fn lemma_q_result_window(b: Seq<Seq<Cell>>, out: Set<usize>, player: usize, d: nat, a: int, bt: int, r: SearchRules)
    requires
        a < bt,
    ensures
        (q_result(b, out, player, d, a, bt, r) <= a) == (q_value(b, out, player, d, r) <= a),
        (q_result(b, out, player, d, a, bt, r) >= bt) == (q_value(b, out, player, d, r) >= bt),
        a < q_result(b, out, player, d, a, bt, r) < bt ==> q_result(b, out, player, d, a, bt, r) == q_value(b, out, player, d, r),
{
}

/// The player to move after `player` on `b` with the players `out` out.
pub open spec fn es_next(b: Seq<Seq<Cell>>, out: Set<usize>, player: usize, r: SearchRules) -> usize {
    next_live(b, |q: usize| out.contains(q), player, r.max_players)
}

/// The evaluation of `b` for `player`.
pub open spec fn pvs_eval(b: Seq<Seq<Cell>>, player: usize, r: SearchRules) -> int {
    search_eval(b, player, r)
}

/// The score of a position that ends the search for the player to move: lost when
/// the searching player is out and it is to move, won when it is out and another is
/// to move, lost when at most one player is left in; `None` otherwise.
pub open spec fn es_terminal(b: Seq<Seq<Cell>>, out: Set<usize>, player: usize, r: SearchRules) -> Option<int> {
    if out.contains(r.ai_player) {
        Some(if player == r.ai_player { lost_score() } else { won_score() })
    } else if alive_upto(b, out, r.max_players as nat) <= 1 {
        Some(lost_score())
    } else {
        None
    }
}

/// The larger of `acc` and every score of `s`.
pub open spec fn max_fold(acc: int, s: Seq<int>) -> int
    decreases s.len(),
{
    if s.len() == 0 {
        acc
    } else {
        let m = max_fold(acc, s.drop_last());
        if s.last() > m { s.last() } else { m }
    }
}

/// The negamax value of the quiescence search at ply `d` (of 3) for the player to
/// move: the score of an ended position, the evaluation at the last ply, and
/// otherwise the best of standing pat and each quiescence move, a move being worth
/// the negated value of the position it reaches.
pub closed spec fn q_value(b: Seq<Seq<Cell>>, out: Set<usize>, player: usize, d: nat, r: SearchRules) -> int
    decreases (if d <= 3 { 3 - d } else { 0 }), 1nat,
{
    match es_terminal(b, out, player, r) {
        Some(v) => v,
        None => if d >= 3 {
            pvs_eval(b, player, r)
        } else {
            max_fold(pvs_eval(b, player, r), q_scores(b, out, player, explosive_list(b, r.sz, player, r.border_mode, r.cap_mode), d + 1, r))
        },
    }
}

/// The worth of each move of `ms` for the player to move: the negated quiescence
/// value, at ply `d`, of the position it reaches.
pub closed spec fn q_scores(b: Seq<Seq<Cell>>, out: Set<usize>, player: usize, ms: Seq<(usize, usize)>, d: nat, r: SearchRules) -> Seq<int>
    decreases (if d <= 3 { 3 - d } else { 0 }), 2nat,
{
    Seq::new(
        ms.len(),
        |k: int|
            {
                let c = es_child(b, out, player, ms[k], r);
                -q_value(c.0, c.1, es_next(c.0, c.1, player, r), d, r)
            },
    )
}

/// `v` held within `[a, b]`.
pub open spec fn clamp(v: int, a: int, b: int) -> int {
    if v <= a { a } else if v >= b { b } else { v }
}

/// What the quiescence search answers with the window `(a, b)`: the value of an
/// ended position or of the last ply as it is, otherwise the value held within the
/// window.
pub closed spec fn q_result(b: Seq<Seq<Cell>>, out: Set<usize>, player: usize, d: nat, a: int, bt: int, r: SearchRules) -> int {
    if es_terminal(b, out, player, r) is Some || d >= 3 {
        q_value(b, out, player, d, r)
    } else {
        clamp(q_value(b, out, player, d, r), a, bt)
    }
}

/// The moves that a principal-variation node at `depth` searches out of `n`: eight,
/// and three more per ply short of the third.
pub open spec fn pvs_cap(depth: nat, n: nat) -> nat {
    let c: nat = 8 + (if depth < 3 { ((3 - depth) * 3) as nat } else { 0 });
    if n < c { n } else { c }
}

/// `ord` holds the moves of `mv`, each once, in some order.
pub open spec fn is_reorder(ord: Seq<(usize, usize)>, mv: Seq<(usize, usize)>) -> bool {
    &&& ord.len() == mv.len()
    &&& forall|m: (usize, usize)| ord.contains(m) <==> mv.contains(m)
}

/// What a principal-variation search of a position with `depth` plies left and the
/// window `(alpha, beta)` may answer: the score of an ended position; at the last
/// ply, the quiescence answer (`qs`) or the evaluation; with no move, the evaluation;
/// otherwise what its loop over some order of the legal moves answers.
pub closed spec fn pv_ok(
    b: Seq<Seq<Cell>>,
    out: Set<usize>,
    pl: usize,
    depth: nat,
    alpha: int,
    beta: int,
    qs: bool,
    res: int,
    r: SearchRules,
) -> bool
    decreases depth, 40nat,
{
    match es_terminal(b, out, pl, r) {
        Some(v) => res == v,
        None => if depth == 0 {
            if qs {
                res == q_result(b, out, pl, 0, alpha, beta, r)
            } else {
                res == pvs_eval(b, pl, r)
            }
        } else {
            let mv = moves_of(b, pl, r);
            if mv.len() == 0 {
                res == pvs_eval(b, pl, r)
            } else {
                exists|ord: Seq<(usize, usize)>|
                    #[trigger] is_reorder(ord, mv) && pv_loop(b, out, pl, depth, ord, 0, pvs_cap(depth, mv.len()), alpha, beta, i32::MIN + 1, res, r)
            }
        },
    }
}

/// Names the answers `v1` and `v2` of a child's two searches.
pub open spec fn child_answers(v1: int, v2: int) -> bool {
    true
}

/// The loop of a principal-variation node from the `idx`-th of `n` moves of `ord`,
/// with the lower bound `alpha` and the best score `best` so far, answers `res`.
pub closed spec fn pv_loop(
    b: Seq<Seq<Cell>>,
    out: Set<usize>,
    pl: usize,
    depth: nat,
    ord: Seq<(usize, usize)>,
    idx: nat,
    n: nat,
    alpha: int,
    beta: int,
    best: int,
    res: int,
    r: SearchRules,
) -> bool
    decreases depth, (if idx <= n { 2 * (n - idx) + 2 } else { 0 }),
{
    if idx >= n || idx >= ord.len() || depth == 0 {
        res == best
    } else {
        exists|v1: int, v2: int| #[trigger] child_answers(v1, v2) && pv_step(b, out, pl, depth, ord, idx, n, alpha, beta, best, res, r, v1, v2)
    }
}

/// One move of the loop: the child answers `v1` to the first search (the full
/// window for the first move, a null window above `alpha` for the others) and, when a
/// null-window score falls inside the window, `v2` to the full search; the loop then
/// goes on with the raised bound and best score, or stops at a cutoff.
pub closed spec fn pv_step(
    b: Seq<Seq<Cell>>,
    out: Set<usize>,
    pl: usize,
    depth: nat,
    ord: Seq<(usize, usize)>,
    idx: nat,
    n: nat,
    alpha: int,
    beta: int,
    best: int,
    res: int,
    r: SearchRules,
    v1: int,
    v2: int,
) -> bool
    decreases depth, (if idx <= n { 2 * (n - idx) + 1 } else { 0 }),
{
    if idx >= n || idx >= ord.len() || depth == 0 {
        false
    } else {
        let c = es_child(b, out, pl, ord[idx as int], r);
        let nx = es_next(c.0, c.1, pl, r);
        let d1 = (depth - 1) as nat;
        let researched = idx > 0 && -v1 > alpha && -v1 < beta;
        let score = if researched { -v2 } else { -v1 };
        let best2 = if score > best { score } else { best };
        let alpha2 = if score > alpha { score } else { alpha };
        &&& if idx == 0 {
            pv_ok(c.0, c.1, nx, d1, -beta, -alpha, true, v1, r)
        } else {
            pv_ok(c.0, c.1, nx, d1, -alpha - 1, -alpha, false, v1, r)
        }
        &&& researched ==> pv_ok(c.0, c.1, nx, d1, -beta, -alpha, true, v2, r)
        &&& if alpha2 >= beta {
            res == best2
        } else {
            pv_loop(b, out, pl, depth, ord, idx + 1, n, alpha2, beta, best2, res, r)
        }
    }
}

/// How `pv_ok` reads in each case: an ended position, the last ply, a position
/// without a move, and (given an order `ord` of the legal moves) one whose loop
/// answers `res`.
pub proof fn lemma_pv_ok_unfold(
    b: Seq<Seq<Cell>>,
    out: Set<usize>,
    pl: usize,
    depth: nat,
    alpha: int,
    beta: int,
    qs: bool,
    res: int,
    r: SearchRules,
    ord: Seq<(usize, usize)>,
)
    ensures
        es_terminal(b, out, pl, r) matches Some(v) ==> (pv_ok(b, out, pl, depth, alpha, beta, qs, res, r) <==> res == v),
        es_terminal(b, out, pl, r) is None && depth == 0 && qs ==> (pv_ok(b, out, pl, depth, alpha, beta, qs, res, r) <==> res
            == q_result(b, out, pl, 0, alpha, beta, r)),
        es_terminal(b, out, pl, r) is None && depth == 0 && !qs ==> (pv_ok(b, out, pl, depth, alpha, beta, qs, res, r) <==> res
            == pvs_eval(b, pl, r)),
        es_terminal(b, out, pl, r) is None && depth > 0 && moves_of(b, pl, r).len() == 0 ==> (pv_ok(b, out, pl, depth, alpha, beta, qs, res, r)
            <==> res == pvs_eval(b, pl, r)),
        es_terminal(b, out, pl, r) is None && depth > 0 && moves_of(b, pl, r).len() > 0 && is_reorder(ord, moves_of(b, pl, r)) && pv_loop(
            b,
            out,
            pl,
            depth,
            ord,
            0,
            pvs_cap(depth, moves_of(b, pl, r).len()),
            alpha,
            beta,
            i32::MIN + 1,
            res,
            r,
        ) ==> pv_ok(b, out, pl, depth, alpha, beta, qs, res, r),
{
}

/// A loop past its last move answers its best score.
pub proof fn lemma_pv_loop_end(
    b: Seq<Seq<Cell>>,
    out: Set<usize>,
    pl: usize,
    depth: nat,
    ord: Seq<(usize, usize)>,
    idx: nat,
    n: nat,
    alpha: int,
    beta: int,
    best: int,
    r: SearchRules,
)
    requires
        idx >= n,
    ensures
        pv_loop(b, out, pl, depth, ord, idx, n, alpha, beta, best, best, r),
{
}

/// One move of the loop, where the move has one outcome `(cb, cout)` and the next
/// player is `nx`: given the children's answers, the loop at `idx` answers what the
/// loop at `idx + 1` answers with the raised bound and best score, or the best score
/// at a cutoff.
pub proof fn lemma_pv_loop_step(
    b: Seq<Seq<Cell>>,
    out: Set<usize>,
    pl: usize,
    depth: nat,
    ord: Seq<(usize, usize)>,
    idx: nat,
    n: nat,
    alpha: int,
    beta: int,
    best: int,
    r: SearchRules,
    cb: Seq<Seq<Cell>>,
    cout: Set<usize>,
    nx: usize,
    v1: int,
    v2: int,
    idx2: nat,
    alpha2: int,
    best2: int,
)
    requires
        idx < n,
        idx < ord.len(),
        depth > 0,
        es_ply(b, out, pl, ord[idx as int], cb, cout, r.sz, r.border_mode, r.cap_mode),
        nx == es_next(cb, cout, pl, r),
        idx == 0 ==> pv_ok(cb, cout, nx, (depth - 1) as nat, -beta, -alpha, true, v1, r),
        idx > 0 ==> pv_ok(cb, cout, nx, (depth - 1) as nat, -alpha - 1, -alpha, false, v1, r),
        idx > 0 && -v1 > alpha && -v1 < beta ==> pv_ok(cb, cout, nx, (depth - 1) as nat, -beta, -alpha, true, v2, r),
        idx2 == idx + 1,
        ({
            let score = if idx > 0 && -v1 > alpha && -v1 < beta { -v2 } else { -v1 };
            &&& best2 == (if score > best { score } else { best })
            &&& alpha2 == (if score > alpha { score } else { alpha })
        }),
    ensures
        alpha2 >= beta ==> pv_loop(b, out, pl, depth, ord, idx, n, alpha, beta, best, best2, r),
        alpha2 < beta ==> forall|res: int|
            #[trigger] pv_loop(b, out, pl, depth, ord, idx2, n, alpha2, beta, best2, res, r) ==> pv_loop(
                b,
                out,
                pl,
                depth,
                ord,
                idx,
                n,
                alpha,
                beta,
                best,
                res,
                r,
            ),
{
    lemma_es_child(b, out, pl, ord[idx as int], cb, cout, r);
    if alpha2 >= beta {
        assert(child_answers(v1, v2) && pv_step(b, out, pl, depth, ord, idx, n, alpha, beta, best, best2, r, v1, v2));
    } else {
        assert forall|res: int|
            #[trigger] pv_loop(b, out, pl, depth, ord, idx2, n, alpha2, beta, best2, res, r) implies pv_loop(
                b,
                out,
                pl,
                depth,
                ord,
                idx,
                n,
                alpha,
                beta,
                best,
                res,
                r,
            ) by {
            assert(child_answers(v1, v2) && pv_step(b, out, pl, depth, ord, idx, n, alpha, beta, best, res, r, v1, v2));
        }
    }
}

} // verus!
