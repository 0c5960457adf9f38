use crate::board::{all_in, bview, crit_level, nbrs_with_mode, sp_cell_threshold, sp_nbrs_with_mode, wf, BorderMode, CapMode, Cell};
use crate::sort::sort_desc_by_score;
use vstd::prelude::*;

verus! {

broadcast use vstd::seq_lib::group_to_multiset_ensures;

/// The pieces of the enemies of `player` among the first `n` neighbours.
pub open spec fn enemy_pieces(b: Seq<Seq<Cell>>, ns: Seq<(usize, usize)>, n: nat, player: usize) -> int
    decreases n,
{
    if n == 0 {
        0
    } else {
        let nc = b[ns[n - 1].0 as int][ns[n - 1].1 as int];
        enemy_pieces(b, ns, (n - 1) as nat, player) + if nc.owner is Some && nc.owner != Some(player) { nc.count as int } else { 0 }
    }
}

/// The ordering score of a move: ten per piece on the square, a hundred when the
/// square is critical, five per enemy piece next to it.
pub open spec fn move_score(b: Seq<Seq<Cell>>, sz: usize, player: usize, bm: BorderMode, cm: CapMode, m: (usize, usize)) -> int {
    let c = b[m.0 as int][m.1 as int];
    let ns = sp_nbrs_with_mode(m.0, m.1, sz, bm);
    c.count * 10 + (if (c.count as u32) >= sp_cell_threshold(m.0, m.1, sz, bm, cm) - 1 { 100int } else { 0int })
        + 5 * enemy_pieces(b, ns, ns.len(), player)
}

/// The pieces of other players on the listed squares.
pub(crate) fn enemy_pieces_exec(board: &Vec<Vec<Cell>>, sz: usize, ns: &Vec<(usize, usize)>, player: usize) -> (r: i64)
    requires
        wf(bview(board), sz as int),
        all_in(ns@, sz),
        ns@.len() <= 4,
    ensures
        r == enemy_pieces(bview(board), ns@, ns@.len() as nat, player),
        0 <= r <= 1020,
{
    let ghost b = bview(board);
    let mut acc: i64 = 0;
    let mut k: usize = 0;
    while k < ns.len()
        invariant
            b == bview(board),
            wf(b, sz as int),
            all_in(ns@, sz),
            ns@.len() <= 4,
            0 <= k <= ns@.len(),
            acc == enemy_pieces(b, ns@, k as nat, player),
            0 <= acc <= 255 * k,
        decreases ns@.len() - k,
    {
        let (ni, nj) = ns[k];
        assert(all_in(ns@, sz) ==> ns@[k as int].0 < sz && ns@[k as int].1 < sz);
        assert(b[ni as int] == board@[ni as int]@);
        let nc = board[ni][nj];
        if nc.owner.is_some() && nc.owner != Some(player) {
            acc = acc + nc.count as i64;
        }
        k += 1;
    }
    acc
}

/// The ordering score of one move.
pub fn score_move(board: &Vec<Vec<Cell>>, sz: usize, player: usize, border_mode: BorderMode, cap_mode: CapMode, m: (usize, usize)) -> (r: i64)
    requires
        wf(bview(board), sz as int),
        m.0 < sz,
        m.1 < sz,
    ensures
        r == move_score(bview(board), sz, player, border_mode, cap_mode, m),
        0 <= r <= 7750,
{
    assert(bview(board)[m.0 as int] == board@[m.0 as int]@);
    let c = board[m.0][m.1];
    let mut score: i64 = c.count as i64 * 10;
    if (c.count as u32) >= crit_level(m.0, m.1, sz, border_mode, cap_mode) {
        score = score + 100;
    }
    let ns = nbrs_with_mode(m.0, m.1, sz, border_mode);
    proof {
        if border_mode != BorderMode::Wrap {
            assert(ns@.len() <= 4);
        }
    }
    let near = enemy_pieces_exec(board, sz, &ns, player);
    score + near * 5
}

/// The moves, each as many times as given, sorted by descending ordering score (ties
/// in an unspecified order).
pub open spec fn is_ordered_moves(b: Seq<Seq<Cell>>, sz: usize, player: usize, bm: BorderMode, cm: CapMode, moves: Seq<(usize, usize)>, r: Seq<(usize, usize)>) -> bool {
    &&& r.len() == moves.len()
    &&& r.to_multiset() == moves.to_multiset()
    &&& forall|m: (usize, usize)| r.contains(m) <==> moves.contains(m)
    &&& forall|a: int, c: int| 0 <= a < c < r.len() ==>
        move_score(b, sz, player, bm, cm, #[trigger] r[a]) >= move_score(b, sz, player, bm, cm, #[trigger] r[c])
}

/// The second components of scored moves.
pub open spec fn moves_of_scored(s: Seq<(i64, (usize, usize))>) -> Seq<(usize, usize)> {
    s.map_values(|p: (i64, (usize, usize))| p.1)
}

/// Two sequences holding the same elements, as many times each, keep that after
/// taking the move of each.
proof fn lemma_moves_multiset(s1: Seq<(i64, (usize, usize))>, s2: Seq<(i64, (usize, usize))>)
    requires
        s1.to_multiset() == s2.to_multiset(),
    ensures
        moves_of_scored(s1).to_multiset() == moves_of_scored(s2).to_multiset(),
    decreases s1.len(),
{
    broadcast use vstd::seq_lib::group_to_multiset_ensures;
    if s1.len() == 0 {
        assert(s1.to_multiset().len() == 0);
        assert(s2.len() == 0);
        assert(moves_of_scored(s1) =~= moves_of_scored(s2));
    } else {
        let e = s1.last();
        let t1 = s1.drop_last();
        assert(s1 =~= t1.push(e));
        assert(s1.to_multiset().count(e) > 0);
        assert(s2.contains(e));
        let i = choose|i: int| 0 <= i < s2.len() && s2[i] == e;
        let t2 = s2.remove(i);
        assert(t1.to_multiset() =~= t2.to_multiset()) by {
            assert(s2.remove(i).to_multiset() =~= s2.to_multiset().remove(s2[i]));
            assert(t1.push(e).to_multiset() =~= t1.to_multiset().insert(e));
        }
        lemma_moves_multiset(t1, t2);
        let m1 = moves_of_scored(s1);
        let m2 = moves_of_scored(s2);
        assert(m1 =~= moves_of_scored(t1).push(e.1));
        assert(m2.remove(i) =~= moves_of_scored(t2));
        assert(m2[i] == e.1);
        assert(m2.remove(i).to_multiset() =~= m2.to_multiset().remove(m2[i]));
        assert(m2.contains(e.1));
        assert(m2.to_multiset().count(e.1) > 0);
        assert(m2.to_multiset() =~= m2.to_multiset().remove(e.1).insert(e.1));
    }
}

/// Sorts scored moves by descending score and keeps the moves: the moves come out
/// once each as they went in, ordered by `f` where each score is `f` of its move.
pub(crate) fn sort_strip(scored: Vec<(i64, (usize, usize))>, Ghost(f): Ghost<spec_fn((usize, usize)) -> int>) -> (r: Vec<(usize, usize)>)
    requires
        forall|t: int| 0 <= t < scored@.len() ==> (#[trigger] scored@[t]).0 == f(scored@[t].1),
    ensures
        r@.len() == scored@.len(),
        r@.to_multiset() == moves_of_scored(scored@).to_multiset(),
        forall|m: (usize, usize)| r@.contains(m) <==> exists|t: int| 0 <= t < scored@.len() && (#[trigger] scored@[t]).1 == m,
        forall|a: int, c: int| 0 <= a < c < r@.len() ==> f(#[trigger] r@[a]) >= f(#[trigger] r@[c]),
{
    let ghost pre = scored@;
    let mut scored = scored;
    sort_desc_by_score(&mut scored);
    proof {
        assert(scored@.len() == pre.len()) by {
            assert(scored@.to_multiset().len() == pre.to_multiset().len());
        }
        assert forall|e: (i64, (usize, usize))| scored@.contains(e) <==> pre.contains(e) by {
            assert(scored@.to_multiset().count(e) == pre.to_multiset().count(e));
        }
        assert forall|t: int| 0 <= t < scored@.len() implies (#[trigger] scored@[t]).0 == f(scored@[t].1) by {
            assert(pre.contains(scored@[t]));
            let u = choose|u: int| 0 <= u < pre.len() && pre[u] == scored@[t];
        }
    }
    let mut r: Vec<(usize, usize)> = Vec::new();
    let mut k: usize = 0;
    while k < scored.len()
        invariant
            0 <= k <= scored@.len(),
            r@.len() == k,
            forall|t: int| 0 <= t < k ==> (#[trigger] r@[t]) == scored@[t].1,
        decreases scored@.len() - k,
    {
        r.push(scored[k].1);
        k += 1;
    }
    proof {
        assert forall|m: (usize, usize)| r@.contains(m) <==> exists|t: int| 0 <= t < pre.len() && (#[trigger] pre[t]).1 == m by {
            if r@.contains(m) {
                let t = choose|t: int| 0 <= t < r@.len() && r@[t] == m;
                assert(pre.contains(scored@[t]));
                let u = choose|u: int| 0 <= u < pre.len() && pre[u] == scored@[t];
                assert(pre[u].1 == m);
            }
            if exists|t: int| 0 <= t < pre.len() && (#[trigger] pre[t]).1 == m {
                let u = choose|u: int| 0 <= u < pre.len() && (#[trigger] pre[u]).1 == m;
                assert(pre.contains(pre[u]));
                assert(scored@.contains(pre[u]));
                let t = choose|t: int| 0 <= t < scored@.len() && scored@[t] == pre[u];
                assert(r@[t] == m);
            }
        }
        assert forall|a: int, c: int| 0 <= a < c < r@.len() implies f(#[trigger] r@[a]) >= f(#[trigger] r@[c]) by {
            assert(scored@[a].0 >= scored@[c].0);
        }
        assert(r@ =~= moves_of_scored(scored@));
        lemma_moves_multiset(scored@, pre);
    }
    r
}

/// Sorts moves so that critical squares and squares next to many enemy pieces come
/// first.
pub fn order_moves(
    moves: Vec<(usize, usize)>,
    board: &Vec<Vec<Cell>>,
    sz: usize,
    player: usize,
    border_mode: BorderMode,
    cap_mode: CapMode,
) -> (r: Vec<(usize, usize)>)
    requires
        wf(bview(board), sz as int),
        all_in(moves@, sz),
    ensures
        is_ordered_moves(bview(board), sz, player, border_mode, cap_mode, moves@, r@),
{
    let ghost b = bview(board);
    let mut scored: Vec<(i64, (usize, usize))> = Vec::new();
    let mut k: usize = 0;
    while k < moves.len()
        invariant
            b == bview(board),
            wf(b, sz as int),
            all_in(moves@, sz),
            0 <= k <= moves@.len(),
            scored@.len() == k,
            forall|t: int| 0 <= t < k ==> (#[trigger] scored@[t]) == (move_score(b, sz, player, border_mode, cap_mode, moves@[t]) as i64, moves@[t]),
            forall|t: int| 0 <= t < k ==> (#[trigger] scored@[t]).0 == move_score(b, sz, player, border_mode, cap_mode, moves@[t]),
        decreases moves@.len() - k,
    {
        let m = moves[k];
        assert(all_in(moves@, sz) ==> moves@[k as int].0 < sz && moves@[k as int].1 < sz);
        let sc = score_move(board, sz, player, border_mode, cap_mode, m);
        scored.push((sc, m));
        k += 1;
    }
    let ghost scored_pre = scored@;
    let ghost f = |m: (usize, usize)| move_score(b, sz, player, border_mode, cap_mode, m);
    let r = sort_strip(scored, Ghost(f));
    proof {
        assert(moves_of_scored(scored_pre) =~= moves@);
        assert forall|m: (usize, usize)| r@.contains(m) <==> moves@.contains(m) by {
            if r@.contains(m) {
                let u = choose|u: int| 0 <= u < moves@.len() && scored_pre[u].1 == m;
                assert(moves@[u] == m);
            }
            if moves@.contains(m) {
                let u = choose|u: int| 0 <= u < moves@.len() && moves@[u] == m;
                assert(scored_pre[u].1 == m);
            }
        }
        assert forall|a: int, c: int| 0 <= a < c < r@.len() implies
            move_score(b, sz, player, border_mode, cap_mode, #[trigger] r@[a]) >= move_score(b, sz, player, border_mode, cap_mode, #[trigger] r@[c]) by {
            assert(f(r@[a]) >= f(r@[c]));
        }
    }
    r
}

} // verus!
