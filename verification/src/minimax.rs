//! What the alpha-beta search computes, every move having exactly one outcome: the
//! minimax value of the game tree below a position, to a given depth.
use crate::board::{is_move_list, legal_move, lex_lt, BorderMode, CapMode, Cell};
use crate::order::is_ordered_moves;
use crate::alphabeta::{grade_le, Grade};
use crate::eval::eval_value;
use crate::search::ply;
use crate::sim::{add_missing, alive_seq};
use vstd::prelude::*;

verus! {

/// Two strictly ordered sequences with the same elements are equal.
proof fn lemma_sorted_unique<A>(s1: Seq<A>, s2: Seq<A>, lt: spec_fn(A, A) -> bool)
    requires
        forall|x: A, y: A| #[trigger] lt(x, y) ==> !lt(y, x) && x != y,
        forall|a: int, b: int| 0 <= a < b < s1.len() ==> lt(#[trigger] s1[a], #[trigger] s1[b]),
        forall|a: int, b: int| 0 <= a < b < s2.len() ==> lt(#[trigger] s2[a], #[trigger] s2[b]),
        forall|x: A| s1.contains(x) <==> s2.contains(x),
    ensures
        s1 == s2,
    decreases s1.len(),
{
    if s1.len() == 0 {
        if s2.len() > 0 {
            assert(s2.contains(s2[0]));
        }
        assert(s1 =~= s2);
    } else {
        assert(s1.contains(s1[0]));
        assert(s2.len() > 0);
        assert(s2.contains(s2[0]));
        let j = choose|j: int| 0 <= j < s2.len() && s2[j] == s1[0];
        let i = choose|i: int| 0 <= i < s1.len() && s1[i] == s2[0];
        if j > 0 {
            assert(lt(s2[0], s2[j]));
            if i > 0 {
                assert(lt(s1[0], s1[i]));
            }
        }
        assert(s1[0] == s2[0]);
        let t1 = s1.drop_first();
        let t2 = s2.drop_first();
        assert forall|x: A| t1.contains(x) <==> t2.contains(x) by {
            if t1.contains(x) {
                let a = choose|a: int| 0 <= a < t1.len() && t1[a] == x;
                assert(lt(s1[0], s1[a + 1]));
                assert(s1.contains(x));
                let b = choose|b: int| 0 <= b < s2.len() && s2[b] == x;
                assert(b != 0);
                assert(t2[b - 1] == x);
            }
            if t2.contains(x) {
                let a = choose|a: int| 0 <= a < t2.len() && t2[a] == x;
                assert(lt(s2[0], s2[a + 1]));
                assert(s2.contains(x));
                let b = choose|b: int| 0 <= b < s1.len() && s1[b] == x;
                assert(b != 0);
                assert(t1[b - 1] == x);
            }
        }
        assert forall|a: int, b: int| 0 <= a < b < t1.len() implies lt(#[trigger] t1[a], #[trigger] t1[b]) by {
            assert(lt(s1[a + 1], s1[b + 1]));
        }
        assert forall|a: int, b: int| 0 <= a < b < t2.len() implies lt(#[trigger] t2[a], #[trigger] t2[b]) by {
            assert(lt(s2[a + 1], s2[b + 1]));
        }
        lemma_sorted_unique(t1, t2, lt);
        assert(s1 =~= s2) by {
            assert forall|k: int| 0 <= k < s1.len() implies s1[k] == s2[k] by {
                if k > 0 {
                    assert(t1[k - 1] == t2[k - 1]);
                }
            }
        }
    }
}

/// The legal moves of a player form exactly one row-major list.
pub proof fn lemma_move_list_unique(
    b: Seq<Seq<Cell>>,
    sz: usize,
    player: usize,
    bm: BorderMode,
    cm: CapMode,
    mv1: Seq<(usize, usize)>,
    mv2: Seq<(usize, usize)>,
)
    requires
        is_move_list(b, sz, player, bm, cm, mv1),
        is_move_list(b, sz, player, bm, cm, mv2),
    ensures
        mv1 == mv2,
{
    let lt = |x: (usize, usize), y: (usize, usize)| lex_lt(x, y);
    assert forall|x: (usize, usize)| mv1.contains(x) <==> mv2.contains(x) by {
        if mv1.contains(x) {
            let k = choose|k: int| 0 <= k < mv1.len() && mv1[k] == x;
            assert(legal_move(b, sz, player, bm, cm, mv1[k]));
        }
        if mv2.contains(x) {
            let k = choose|k: int| 0 <= k < mv2.len() && mv2[k] == x;
            assert(legal_move(b, sz, player, bm, cm, mv2[k]));
        }
    }
    assert forall|a: int, c: int| 0 <= a < c < mv1.len() implies lt(#[trigger] mv1[a], #[trigger] mv1[c]) by {
        assert(lex_lt(mv1[a], mv1[c]));
    }
    assert forall|a: int, c: int| 0 <= a < c < mv2.len() implies lt(#[trigger] mv2[a], #[trigger] mv2[c]) by {
        assert(lex_lt(mv2[a], mv2[c]));
    }
    lemma_sorted_unique(mv1, mv2, lt);
}

/// A ply has one outcome: the searches play every move with the same seed.
pub proof fn lemma_ply_unique(
    b: Seq<Seq<Cell>>,
    e: Seq<usize>,
    player: usize,
    m: (usize, usize),
    b2: Seq<Seq<Cell>>,
    e2: Seq<usize>,
    n2: usize,
    b3: Seq<Seq<Cell>>,
    e3: Seq<usize>,
    n3: usize,
    sz: usize,
    max_players: usize,
    bm: BorderMode,
    cm: CapMode,
)
    requires
        ply(b, e, player, m, b2, e2, n2, sz, max_players, bm, cm),
        ply(b, e, player, m, b3, e3, n3, sz, max_players, bm, cm),
    ensures
        b2 == b3,
        e2 == e3,
        n2 == n3,
{
}

/// The fixed parameters of a search: the board size, the searching player, the number
/// of players, the game count, the modes, the player's random scale, and whether the
/// learned model evaluates (and its score as a function of board and player).
pub struct SearchRules {
    pub sz: usize,
    pub ai_player: usize,
    pub max_players: usize,
    pub game_count: u32,
    pub border_mode: BorderMode,
    pub cap_mode: CapMode,
    pub user_random_scale: u32,
    pub use_ml_eval: bool,
    pub model: spec_fn(Seq<Seq<Cell>>, usize) -> int,
}

/// The evaluation of `b` for `player` in a search with the rules `r`.
pub open spec fn search_eval(b: Seq<Seq<Cell>>, player: usize, r: SearchRules) -> int {
    eval_value(b, player, r.game_count, r.use_ml_eval, r.border_mode, r.cap_mode, r.user_random_scale, r.model)
}

/// The legal moves of `player` in row-major order.
pub open spec fn moves_of(b: Seq<Seq<Cell>>, player: usize, r: SearchRules) -> Seq<(usize, usize)> {
    choose|mv: Seq<(usize, usize)>| is_move_list(b, r.sz, player, r.border_mode, r.cap_mode, mv)
}

/// The position after `player` plays `m`: the board, the players out, the player to move.
pub open spec fn child_of(b: Seq<Seq<Cell>>, e: Seq<usize>, player: usize, m: (usize, usize), r: SearchRules) -> (
    Seq<Seq<Cell>>,
    Seq<usize>,
    usize,
) {
    choose|c: (Seq<Seq<Cell>>, Seq<usize>, usize)| ply(b, e, player, m, c.0, c.1, c.2, r.sz, r.max_players, r.border_mode, r.cap_mode)
}

/// The grade of a position where the search stops: a loss when the searching player is
/// out, a win when it is the only one left in, the evaluation otherwise.
pub open spec fn leaf_grade(b: Seq<Seq<Cell>>, e: Seq<usize>, r: SearchRules) -> Grade {
    if e.contains(r.ai_player) {
        Grade::Min
    } else if alive_seq(b, e, r.max_players as nat) == seq![r.ai_player] {
        Grade::Max
    } else {
        Grade::Score(search_eval(b, r.ai_player, r) as i64)
    }
}

/// The best of a sequence of grades for the side to move: the largest for the
/// searching player, the smallest for the others (a loss or a win when empty).
pub open spec fn grade_fold(s: Seq<Grade>, is_max: bool) -> Grade
    decreases s.len(),
{
    if s.len() == 0 {
        if is_max { Grade::Min } else { Grade::Max }
    } else {
        let r = grade_fold(s.drop_last(), is_max);
        if is_max {
            if grade_le(r, s.last()) { s.last() } else { r }
        } else {
            if grade_le(r, s.last()) { r } else { s.last() }
        }
    }
}

/// The minimax value of a position to depth `d`: the searching player picks the
/// largest value among its moves, the others the smallest; a position without a
/// move, or at depth 0, is graded as it stands.
pub open spec fn minimax(b: Seq<Seq<Cell>>, e: Seq<usize>, player: usize, d: nat, r: SearchRules) -> Grade
    decreases d, 1nat,
{
    let mv = moves_of(b, player, r);
    if d == 0 || mv.len() == 0 {
        leaf_grade(b, e, r)
    } else {
        grade_fold(child_values(b, e, player, mv, (d - 1) as nat, r), player == r.ai_player)
    }
}

/// The values to depth `d` of the children that the moves `mv` reach.
pub open spec fn child_values(b: Seq<Seq<Cell>>, e: Seq<usize>, player: usize, mv: Seq<(usize, usize)>, d: nat, r: SearchRules) -> Seq<Grade>
    decreases d, 2nat,
{
    Seq::new(
        mv.len(),
        |k: int|
            {
                let c = child_of(b, e, player, mv[k], r);
                minimax(c.0, c.1, c.2, d, r)
            },
    )
}

/// The value of the child reached by `m`, one level down.
pub open spec fn child_value(b: Seq<Seq<Cell>>, e: Seq<usize>, player: usize, m: (usize, usize), d: nat, r: SearchRules) -> Grade {
    let c = child_of(b, e, player, m, r);
    minimax(c.0, c.1, c.2, d, r)
}

/// The order of grades is total.
pub proof fn lemma_grade_order(a: Grade, b: Grade, c: Grade)
    ensures
        grade_le(a, a),
        grade_le(a, b) || grade_le(b, a),
        grade_le(a, b) && grade_le(b, a) ==> a == b,
        grade_le(a, b) && grade_le(b, c) ==> grade_le(a, c),
{
}

/// The fold is one of the grades (when there is one) and bounds them all.
pub proof fn lemma_grade_fold(s: Seq<Grade>, is_max: bool)
    ensures
        s.len() > 0 ==> exists|k: int| 0 <= k < s.len() && s[k] == grade_fold(s, is_max),
        is_max ==> forall|k: int| 0 <= k < s.len() ==> grade_le(#[trigger] s[k], grade_fold(s, is_max)),
        !is_max ==> forall|k: int| 0 <= k < s.len() ==> grade_le(grade_fold(s, is_max), #[trigger] s[k]),
    decreases s.len(),
{
    if s.len() > 0 {
        let t = s.drop_last();
        lemma_grade_fold(t, is_max);
        let r = grade_fold(t, is_max);
        lemma_grade_order(r, s.last(), r);
        assert forall|k: int| 0 <= k < t.len() implies #[trigger] s[k] == t[k] by {}
        if is_max {
            assert forall|k: int| 0 <= k < s.len() implies grade_le(#[trigger] s[k], grade_fold(s, is_max)) by {
                if k < t.len() {
                    lemma_grade_order(t[k], r, s.last());
                }
            }
        } else {
            assert forall|k: int| 0 <= k < s.len() implies grade_le(grade_fold(s, is_max), #[trigger] s[k]) by {
                if k < t.len() {
                    lemma_grade_order(s.last(), r, t[k]);
                }
            }
        }
        if t.len() > 0 {
            let j = choose|j: int| 0 <= j < t.len() && t[j] == r;
            assert(s[j] == t[j]);
        }
        assert(s[s.len() - 1] == s.last());
    }
}

/// The row-major list of legal moves is the one `moves_of` names.
pub proof fn lemma_moves_of(b: Seq<Seq<Cell>>, player: usize, r: SearchRules, mv: Seq<(usize, usize)>)
    requires
        is_move_list(b, r.sz, player, r.border_mode, r.cap_mode, mv),
    ensures
        moves_of(b, player, r) == mv,
{
    let c = moves_of(b, player, r);
    assert(is_move_list(b, r.sz, player, r.border_mode, r.cap_mode, c));
    lemma_move_list_unique(b, r.sz, player, r.border_mode, r.cap_mode, c, mv);
}

/// The position a ply reaches is the one `child_of` names.
pub proof fn lemma_child_of(
    b: Seq<Seq<Cell>>,
    e: Seq<usize>,
    player: usize,
    m: (usize, usize),
    b2: Seq<Seq<Cell>>,
    e2: Seq<usize>,
    n2: usize,
    r: SearchRules,
)
    requires
        ply(b, e, player, m, b2, e2, n2, r.sz, r.max_players, r.border_mode, r.cap_mode),
    ensures
        child_of(b, e, player, m, r) == (b2, e2, n2),
{
    let w = (b2, e2, n2);
    assert(ply(b, e, player, m, w.0, w.1, w.2, r.sz, r.max_players, r.border_mode, r.cap_mode));
    let c = child_of(b, e, player, m, r);
    lemma_ply_unique(b, e, player, m, c.0, c.1, c.2, b2, e2, n2, r.sz, r.max_players, r.border_mode, r.cap_mode);
}

/// `a` is below `b`.
pub open spec fn grade_lt(a: Grade, b: Grade) -> bool {
    !grade_le(b, a)
}

/// What fail-soft alpha-beta promises of its answer `r` with the window `(a, b)` for a
/// position of value `v`: an answer at most `a` bounds the value from above, one at
/// least `b` bounds it from below, and one strictly inside the window is the value.
pub open spec fn in_window(r: Grade, a: Grade, b: Grade, v: Grade) -> bool {
    &&& grade_le(r, a) ==> grade_le(v, r)
    &&& grade_le(b, r) ==> grade_le(r, v)
    &&& (grade_lt(a, r) && grade_lt(r, b)) ==> r == v
}

/// The larger of two grades (the second on ties).
pub open spec fn grade_hi(a: Grade, b: Grade) -> Grade {
    if grade_le(a, b) { b } else { a }
}

/// The smaller of two grades (the first on ties).
pub open spec fn grade_lo(a: Grade, b: Grade) -> Grade {
    if grade_le(a, b) { a } else { b }
}

/// One child of a maximising node: with the window `(max(a0, best), b0)` the child
/// answered `g` for its value `v`; the node's best and lower bound move up to `g`.
pub proof fn lemma_max_step(a0: Grade, b0: Grade, best: Grade, g: Grade, v: Grade)
    requires
        grade_lt(grade_hi(a0, best), b0),
        in_window(g, grade_hi(a0, best), b0, v),
    ensures
        grade_hi(grade_hi(a0, best), g) == grade_hi(a0, grade_hi(best, g)),
        grade_le(best, grade_hi(best, g)),
        !grade_le(b0, grade_hi(grade_hi(a0, best), g)) ==> grade_le(v, grade_hi(best, g)),
        !grade_le(b0, grade_hi(grade_hi(a0, best), g)) && grade_lt(a0, grade_hi(best, g))
            ==> (grade_hi(best, g) == best && grade_lt(a0, best)) || grade_hi(best, g) == v,
        grade_le(b0, grade_hi(grade_hi(a0, best), g)) ==> grade_le(b0, grade_hi(best, g)) && grade_le(grade_hi(best, g), v),
{
}

/// One child of a minimising node: with the window `(a0, min(b0, best))` the child
/// answered `g` for its value `v`; the node's best and upper bound move down to `g`.
pub proof fn lemma_min_step(a0: Grade, b0: Grade, best: Grade, g: Grade, v: Grade)
    requires
        grade_lt(a0, grade_lo(b0, best)),
        in_window(g, a0, grade_lo(b0, best), v),
    ensures
        grade_lo(grade_lo(b0, best), g) == grade_lo(b0, grade_lo(best, g)),
        grade_le(grade_lo(best, g), best),
        !grade_le(grade_lo(grade_lo(b0, best), g), a0) ==> grade_le(grade_lo(best, g), v),
        !grade_le(grade_lo(grade_lo(b0, best), g), a0) && grade_lt(grade_lo(best, g), b0)
            ==> (grade_lo(best, g) == best && grade_lt(best, b0)) || grade_lo(best, g) == v,
        grade_le(grade_lo(grade_lo(b0, best), g), a0) ==> grade_le(grade_lo(best, g), a0) && grade_le(v, grade_lo(best, g)),
{
}

/// A maximising node searched its children in the order `ord` (the moves `mv` in
/// another order) and ended with `best`: all children searched without a cutoff, or
/// stopped at one whose answer reached `b0`. Its answer is then within the window.
pub proof fn lemma_node_max(
    b: Seq<Seq<Cell>>,
    e: Seq<usize>,
    pl: usize,
    mv: Seq<(usize, usize)>,
    ord: Seq<(usize, usize)>,
    d: nat,
    r: SearchRules,
    a0: Grade,
    b0: Grade,
    best: Grade,
    cut: bool,
)
    requires
        mv.len() > 0,
        forall|m: (usize, usize)| ord.contains(m) <==> mv.contains(m),
        grade_lt(a0, b0),
        !cut ==> grade_lt(grade_hi(a0, best), b0),
        !cut ==> forall|j: int| 0 <= j < ord.len() ==> grade_le(#[trigger] child_value(b, e, pl, ord[j], d, r), best),
        !cut && grade_lt(a0, best) ==> exists|j: int| 0 <= j < ord.len() && #[trigger] child_value(b, e, pl, ord[j], d, r) == best,
        cut ==> grade_le(b0, best),
        cut ==> exists|j: int| 0 <= j < ord.len() && grade_le(best, #[trigger] child_value(b, e, pl, ord[j], d, r)),
    ensures
        in_window(best, a0, b0, grade_fold(child_values(b, e, pl, mv, d, r), true)),
{
    let cvs = child_values(b, e, pl, mv, d, r);
    let v = grade_fold(cvs, true);
    lemma_grade_fold(cvs, true);
    assert forall|k: int| 0 <= k < mv.len() implies #[trigger] cvs[k] == child_value(b, e, pl, mv[k], d, r) by {}
    if !cut {
        let k = choose|k: int| 0 <= k < cvs.len() && cvs[k] == v;
        assert(mv.contains(mv[k]));
        let j = choose|j: int| 0 <= j < ord.len() && ord[j] == mv[k];
        assert(grade_le(child_value(b, e, pl, ord[j], d, r), best));
        lemma_grade_order(v, best, b0);
        lemma_grade_order(a0, best, b0);
        lemma_grade_order(best, grade_hi(a0, best), b0);
        if grade_lt(a0, best) {
            let j2 = choose|j: int| 0 <= j < ord.len() && #[trigger] child_value(b, e, pl, ord[j], d, r) == best;
            assert(ord.contains(ord[j2]));
            let k2 = choose|k: int| 0 <= k < mv.len() && mv[k] == ord[j2];
            assert(grade_le(cvs[k2], v));
        }
    } else {
        let j = choose|j: int| 0 <= j < ord.len() && grade_le(best, #[trigger] child_value(b, e, pl, ord[j], d, r));
        assert(ord.contains(ord[j]));
        let k = choose|k: int| 0 <= k < mv.len() && mv[k] == ord[j];
        assert(grade_le(cvs[k], v));
        lemma_grade_order(best, cvs[k], v);
        lemma_grade_order(a0, b0, best);
    }
}

/// A minimising node searched its children in the order `ord` and ended with `best`:
/// all children without a cutoff, or stopped at one whose answer fell to `a0`. Its
/// answer is then within the window.
pub proof fn lemma_node_min(
    b: Seq<Seq<Cell>>,
    e: Seq<usize>,
    pl: usize,
    mv: Seq<(usize, usize)>,
    ord: Seq<(usize, usize)>,
    d: nat,
    r: SearchRules,
    a0: Grade,
    b0: Grade,
    best: Grade,
    cut: bool,
)
    requires
        mv.len() > 0,
        forall|m: (usize, usize)| ord.contains(m) <==> mv.contains(m),
        grade_lt(a0, b0),
        !cut ==> grade_lt(a0, grade_lo(b0, best)),
        !cut ==> forall|j: int| 0 <= j < ord.len() ==> grade_le(best, #[trigger] child_value(b, e, pl, ord[j], d, r)),
        !cut && grade_lt(best, b0) ==> exists|j: int| 0 <= j < ord.len() && #[trigger] child_value(b, e, pl, ord[j], d, r) == best,
        cut ==> grade_le(best, a0),
        cut ==> exists|j: int| 0 <= j < ord.len() && grade_le(#[trigger] child_value(b, e, pl, ord[j], d, r), best),
    ensures
        in_window(best, a0, b0, grade_fold(child_values(b, e, pl, mv, d, r), false)),
{
    let cvs = child_values(b, e, pl, mv, d, r);
    let v = grade_fold(cvs, false);
    lemma_grade_fold(cvs, false);
    assert forall|k: int| 0 <= k < mv.len() implies #[trigger] cvs[k] == child_value(b, e, pl, mv[k], d, r) by {}
    if !cut {
        let k = choose|k: int| 0 <= k < cvs.len() && cvs[k] == v;
        assert(mv.contains(mv[k]));
        let j = choose|j: int| 0 <= j < ord.len() && ord[j] == mv[k];
        assert(grade_le(best, child_value(b, e, pl, ord[j], d, r)));
        lemma_grade_order(best, v, a0);
        lemma_grade_order(best, b0, a0);
        lemma_grade_order(a0, grade_lo(b0, best), best);
        if grade_lt(best, b0) {
            let j2 = choose|j: int| 0 <= j < ord.len() && #[trigger] child_value(b, e, pl, ord[j], d, r) == best;
            assert(ord.contains(ord[j2]));
            let k2 = choose|k: int| 0 <= k < mv.len() && mv[k] == ord[j2];
            assert(grade_le(v, cvs[k2]));
        }
    } else {
        let j = choose|j: int| 0 <= j < ord.len() && grade_le(#[trigger] child_value(b, e, pl, ord[j], d, r), best);
        assert(ord.contains(ord[j]));
        let k = choose|k: int| 0 <= k < mv.len() && mv[k] == ord[j];
        assert(grade_le(v, cvs[k]));
        lemma_grade_order(v, cvs[k], best);
        lemma_grade_order(best, a0, b0);
    }
}

/// The depth below the root that each root move is searched to.
pub open spec fn search_depth(depth: nat) -> nat {
    if depth > 0 { (depth - 1) as nat } else { 0 }
}

/// The move of `ms` whose child has the largest value to depth `d`, the last of equal
/// ones.
pub open spec fn last_best(ms: Seq<(usize, usize)>, b: Seq<Seq<Cell>>, e: Seq<usize>, pl: usize, d: nat, r: SearchRules) -> (usize, usize)
    decreases ms.len(),
{
    if ms.len() <= 1 {
        ms[0]
    } else {
        let p = last_best(ms.drop_last(), b, e, pl, d, r);
        if grade_le(child_value(b, e, pl, p, d, r), child_value(b, e, pl, ms.last(), d, r)) { ms.last() } else { p }
    }
}

/// The answer of a root search that values each of the `limit` best-ordered moves by
/// the minimax value of its child: the best of them, the last of equal ones.
pub open spec fn best_searched(
    b: Seq<Seq<Cell>>,
    e: Seq<usize>,
    pl: usize,
    depth: nat,
    r: SearchRules,
    limit: int,
    res: Option<(usize, usize)>,
) -> bool {
    exists|mv: Seq<(usize, usize)>, ord: Seq<(usize, usize)>|
        is_move_list(b, r.sz, pl, r.border_mode, r.cap_mode, mv) && #[trigger] is_ordered_moves(b, r.sz, pl, r.border_mode, r.cap_mode, mv, ord)
            && res == Some(last_best(ord.take(if ord.len() < limit { ord.len() as int } else { limit }), b, e, pl, search_depth(depth), r))
}

} // verus!
