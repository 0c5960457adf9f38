use crate::board::{all_in, owns_any, sp_cell_threshold, sp_nbrs, sp_nbrs_wrap, upd, wf, BorderMode, CapMode, Cell};
use crate::chain::{
    apply_one, apply_upto, bounce_extra, chain_outcome, click_ok, chain_start, click_result, drawn_threshold, eff_border,
    extra_upto, is_elim_list, is_first_move, is_opponent, is_special_pos, killed_list, place, run, seeded_click,
    sp_extra, sp_special, sp_targets, step, ChainState,
};
use vstd::prelude::*;

verus! {

/// Invariant of the snapshot record: one board and one square per explosion, the
/// last board being the current one.
pub open spec fn snap_inv(s: ChainState) -> bool {
    &&& s.steps.len() == s.count
    &&& s.exploded.len() == s.count
    &&& s.count > 0 ==> s.steps.last() == s.board
}

proof fn lemma_run_snap(init: ChainState, sz: usize, bm: BorderMode, cm: CapMode, ds: Seq<(nat, nat, nat)>)
    requires
        snap_inv(init),
    ensures
        run(init, sz, bm, cm, ds) matches Some(s) ==> snap_inv(s),
    decreases ds.len(),
{
    if ds.len() > 0 {
        lemma_run_snap(init, sz, bm, cm, ds.drop_last());
    }
}

/// The recorded snapshots of a click: one board and one square per explosion, and
/// the last board is the board the click leaves.
pub proof fn lemma_click_snapshots(
    b0: Seq<Seq<Cell>>,
    sz: usize,
    x: usize,
    y: usize,
    player: usize,
    bm: BorderMode,
    cm: CapMode,
    d0: nat,
    ds: Seq<(nat, nat, nat)>,
    fin: ChainState,
)
    requires
        chain_outcome(b0, sz, x, y, player, bm, cm, d0, ds, fin),
    ensures
        fin.steps.len() == fin.count,
        fin.exploded.len() == fin.count,
        fin.count > 0 ==> fin.steps.last() == fin.board,
{
    let b1 = place(b0, sz, x, y, player, bm, cm, d0).unwrap();
    lemma_run_snap(chain_start(b0, b1, x, y, player), sz, bm, cm, ds);
}

proof fn lemma_run_empty_queue(init: ChainState, sz: usize, bm: BorderMode, cm: CapMode, ds: Seq<(nat, nat, nat)>)
    requires
        init.queue.len() == 0,
        run(init, sz, bm, cm, ds) is Some,
    ensures
        ds.len() == 0,
    decreases ds.len(),
{
    if ds.len() > 0 {
        lemma_run_empty_queue(init, sz, bm, cm, ds.drop_last());
    }
}

/// A first move never explodes: the piece is placed one below the square's
/// threshold and nothing else changes.
pub proof fn lemma_first_move_places_only(
    b0: Seq<Seq<Cell>>,
    sz: usize,
    x: usize,
    y: usize,
    player: usize,
    bm: BorderMode,
    cm: CapMode,
    d0: nat,
    ds: Seq<(nat, nat, nat)>,
    fin: ChainState,
)
    requires
        chain_outcome(b0, sz, x, y, player, bm, cm, d0, ds, fin),
        is_first_move(b0, x, y, player),
    ensures
        fin.count == 0,
        fin.board == upd(b0, x as int, y as int, Cell {
            owner: Some(player),
            count: (drawn_threshold(x, y, sz, bm, cm, d0).unwrap() - 1) as u8,
            th: b0[x as int][y as int].th,
        }),
{
    let b1 = place(b0, sz, x, y, player, bm, cm, d0).unwrap();
    lemma_run_empty_queue(chain_start(b0, b1, x, y, player), sz, bm, cm, ds);
}

/// The modes in which no random event occurs.
pub open spec fn fixed_modes(bm: BorderMode, cm: CapMode) -> bool {
    bm != BorderMode::Random && cm == CapMode::Cap4
}

proof fn lemma_step_ignores_draws(st: ChainState, sz: usize, bm: BorderMode, cm: CapMode, d: (nat, nat, nat), e: (nat, nat, nat))
    requires
        fixed_modes(bm, cm),
    ensures
        step(st, sz, bm, cm, d) == step(st, sz, bm, cm, e),
{
}

proof fn lemma_run_ignores_draws(init: ChainState, sz: usize, bm: BorderMode, cm: CapMode, ds: Seq<(nat, nat, nat)>, es: Seq<(nat, nat, nat)>)
    requires
        fixed_modes(bm, cm),
        ds.len() == es.len(),
    ensures
        run(init, sz, bm, cm, ds) == run(init, sz, bm, cm, es),
    decreases ds.len(),
{
    if ds.len() > 0 {
        lemma_run_ignores_draws(init, sz, bm, cm, ds.drop_last(), es.drop_last());
        if let Some(s) = run(init, sz, bm, cm, ds.drop_last()) {
            lemma_step_ignores_draws(s, sz, bm, cm, ds.last(), es.last());
        }
    }
}

/// Once the queue is empty no further draw can be consumed.
proof fn lemma_run_stops(init: ChainState, sz: usize, bm: BorderMode, cm: CapMode, ds: Seq<(nat, nat, nat)>, n: nat)
    requires
        n < ds.len(),
        run(init, sz, bm, cm, ds.take(n as int)) matches Some(s) && s.queue.len() == 0,
    ensures
        run(init, sz, bm, cm, ds) is None,
    decreases ds.len(),
{
    if ds.len() == n + 1 {
        assert(ds.drop_last() =~= ds.take(n as int));
    } else {
        assert(ds.drop_last().take(n as int) =~= ds.take(n as int));
        lemma_run_stops(init, sz, bm, cm, ds.drop_last(), n);
    }
}

/// Where no random event occurs (a fixed border and cap 4), a click has exactly one
/// outcome: the same board and click always give the same result.
pub proof fn lemma_fixed_modes_deterministic(
    b0: Seq<Seq<Cell>>,
    sz: usize,
    x: usize,
    y: usize,
    player: usize,
    bm: BorderMode,
    cm: CapMode,
    d0: nat,
    ds: Seq<(nat, nat, nat)>,
    fin: ChainState,
    e0: nat,
    es: Seq<(nat, nat, nat)>,
    fin2: ChainState,
)
    requires
        fixed_modes(bm, cm),
        chain_outcome(b0, sz, x, y, player, bm, cm, d0, ds, fin),
        chain_outcome(b0, sz, x, y, player, bm, cm, e0, es, fin2),
    ensures
        fin == fin2,
{
    let b1 = place(b0, sz, x, y, player, bm, cm, d0).unwrap();
    assert(place(b0, sz, x, y, player, bm, cm, e0) == Some(b1));
    let init = chain_start(b0, b1, x, y, player);
    if ds.len() == es.len() {
        lemma_run_ignores_draws(init, sz, bm, cm, ds, es);
    } else if ds.len() < es.len() {
        // fin has an empty queue, so `es` cannot go on
        lemma_run_ignores_draws(init, sz, bm, cm, ds, es.take(ds.len() as int));
        lemma_run_stops(init, sz, bm, cm, es, ds.len());
    } else {
        lemma_run_ignores_draws(init, sz, bm, cm, ds.take(es.len() as int), es);
        lemma_run_stops(init, sz, bm, cm, ds, es.len());
    }
}


/// No square holds as many pieces as its threshold.
pub open spec fn stable(b: Seq<Seq<Cell>>, sz: usize, bm: BorderMode, cm: CapMode) -> bool {
    forall|i: int, j: int| 0 <= i < sz && 0 <= j < sz ==>
        ((#[trigger] b[i][j]).count as u32) < sp_cell_threshold(i as usize, j as usize, sz, bm, cm)
}

/// Every square that differs from `b0` and is at or above its threshold waits in
/// the queue.
pub open spec fn settle_inv(s: ChainState, b0: Seq<Seq<Cell>>, sz: usize, bm: BorderMode, cm: CapMode) -> bool {
    &&& wf(s.board, sz as int)
    &&& all_in(s.queue, sz)
    &&& forall|i: int, j: int| 0 <= i < sz && 0 <= j < sz ==>
        ((#[trigger] s.board[i][j]).count as u32) < sp_cell_threshold(i as usize, j as usize, sz, bm, cm)
            || s.queue.contains((i as usize, j as usize))
            || s.board[i][j] == b0[i][j]
}

proof fn lemma_apply_upto_frame(
    s: (Seq<Seq<Cell>>, Seq<(usize, usize)>, Map<usize, usize>),
    ts: Seq<(usize, usize)>,
    n: nat,
    sp: Option<nat>,
    cm: CapMode,
    o: usize,
    sz: usize,
)
    requires
        n <= ts.len(),
        wf(s.0, sz as int),
        all_in(ts, sz),
    ensures
        wf(apply_upto(s, ts, n, sp, cm, o).0, sz as int),
        apply_upto(s, ts, n, sp, cm, o).1.len() >= s.1.len(),
        forall|k: int| 0 <= k < s.1.len() ==> #[trigger] apply_upto(s, ts, n, sp, cm, o).1[k] == s.1[k],
        forall|k: int| s.1.len() <= k < apply_upto(s, ts, n, sp, cm, o).1.len()
            ==> ts.contains(#[trigger] apply_upto(s, ts, n, sp, cm, o).1[k]),
        forall|i: int, j: int| 0 <= i < sz && 0 <= j < sz ==>
            #[trigger] apply_upto(s, ts, n, sp, cm, o).0[i][j] == s.0[i][j]
                || apply_upto(s, ts, n, sp, cm, o).1.contains((i as usize, j as usize)),
        forall|k: int| 0 <= k < n && !(sp == Some(k as nat) && cm == CapMode::Cap3)
            ==> apply_upto(s, ts, n, sp, cm, o).1.contains(#[trigger] ts[k]),
    decreases n,
{
    if n > 0 {
        let m = (n - 1) as nat;
        lemma_apply_upto_frame(s, ts, m, sp, cm, o, sz);
        let p = apply_upto(s, ts, m, sp, cm, o);
        let r = apply_upto(s, ts, n, sp, cm, o);
        assert(r == apply_one(p, ts[m as int], m, sp, cm, o));
        let t = ts[m as int];
        assert(t.0 < sz && t.1 < sz);
        if sp == Some(m) && cm == CapMode::Cap3 {
        } else {
            assert(r.1 == p.1.push(t));
            assert(r.1[p.1.len() as int] == t);
            assert forall|q: (usize, usize)| p.1.contains(q) implies r.1.contains(q) by {
                let k = choose|k: int| 0 <= k < p.1.len() && p.1[k] == q;
                assert(r.1[k] == q);
            }
            assert forall|k: int| s.1.len() <= k < r.1.len() implies ts.contains(#[trigger] r.1[k]) by {
                if k == p.1.len() {
                    assert(ts[m as int] == r.1[k]);
                } else {
                    assert(r.1[k] == p.1[k]);
                }
            }
            assert forall|i: int, j: int| 0 <= i < sz && 0 <= j < sz implies
                #[trigger] r.0[i][j] == s.0[i][j] || r.1.contains((i as usize, j as usize)) by {
                if i == t.0 && j == t.1 {
                    assert(r.1.contains(t));
                } else {
                    assert(r.0[i][j] == p.0[i][j]);
                }
            }
        }
    }
}

proof fn lemma_extra_upto_frame(
    b: Seq<Seq<Cell>>,
    es: Seq<(usize, usize)>,
    n: nat,
    ts: Seq<(usize, usize)>,
    sp: Option<nat>,
    sz: usize,
)
    requires
        n <= es.len(),
        wf(b, sz as int),
        all_in(es, sz),
    ensures
        wf(extra_upto(b, es, n, ts, sp), sz as int),
        forall|i: int, j: int| 0 <= i < sz && 0 <= j < sz ==>
            #[trigger] extra_upto(b, es, n, ts, sp)[i][j] == b[i][j]
                || exists|k: int| 0 <= k < n && es[k] == (i as usize, j as usize) && !is_special_pos(ts, sp, es[k]),
    decreases n,
{
    if n > 0 {
        let m = (n - 1) as nat;
        lemma_extra_upto_frame(b, es, m, ts, sp, sz);
        let e = es[m as int];
        assert(e.0 < sz && e.1 < sz);
        let b1 = extra_upto(b, es, m, ts, sp);
        let r = extra_upto(b, es, n, ts, sp);
        assert forall|i: int, j: int| 0 <= i < sz && 0 <= j < sz implies
            #[trigger] r[i][j] == b[i][j]
                || exists|k: int| 0 <= k < n && es[k] == (i as usize, j as usize) && !is_special_pos(ts, sp, es[k]) by {
            if !is_special_pos(ts, sp, e) && i == e.0 && j == e.1 {
                assert(es[m as int] == (i as usize, j as usize));
            } else {
                assert(r[i][j] == b1[i][j]);
                if b1[i][j] != b[i][j] {
                    let k = choose|k: int| 0 <= k < m && es[k] == (i as usize, j as usize) && !is_special_pos(ts, sp, es[k]);
                    assert(0 <= k < n);
                }
            }
        }
    }
}

proof fn lemma_step_settle(st: ChainState, b0: Seq<Seq<Cell>>, sz: usize, bm: BorderMode, cm: CapMode, d: (nat, nat, nat))
    requires
        bm != BorderMode::Random,
        cm != CapMode::Random,
        settle_inv(st, b0, sz, bm, cm),
        step(st, sz, bm, cm, d) is Some,
    ensures
        settle_inv(step(st, sz, bm, cm, d).unwrap(), b0, sz, bm, cm),
{
    let r = step(st, sz, bm, cm, d).unwrap();
    let cx = st.queue[0].0;
    let cy = st.queue[0].1;
    let q1 = st.queue.drop_first();
    assert(cx < sz && cy < sz);
    let th = sp_cell_threshold(cx, cy, sz, bm, cm);
    let c = st.board[cx as int][cy as int];
    assert(all_in(q1, sz)) by {
        assert forall|k: int| 0 <= k < q1.len() implies (#[trigger] q1[k]).0 < sz && q1[k].1 < sz by {
            assert(q1[k] == st.queue[k + 1]);
        }
    }
    // a square other than the examined one that waited in the queue still does
    assert forall|i: int, j: int| 0 <= i < sz && 0 <= j < sz && st.queue.contains((i as usize, j as usize))
        && !(i == cx && j == cy) implies #[trigger] q1.contains((i as usize, j as usize)) by {
        let k = choose|k: int| 0 <= k < st.queue.len() && st.queue[k] == (i as usize, j as usize);
        assert(k != 0);
        assert(q1[k - 1] == st.queue[k]);
    }
    if (c.count as u32) >= th {
        let o = c.owner.unwrap();
        let b1 = upd(st.board, cx as int, cy as int, Cell { owner: None, count: 0, th: c.th });
        let ts = sp_targets(cx, cy, sz, bm);
        let es = sp_extra(cx, cy, sz, bm);
        let sp = sp_special(cm, ts.len(), d.2).unwrap();
        let s0 = (b1, q1, st.killers);
        let a = apply_upto(s0, ts, ts.len(), sp, cm, o);
        crate::chain::lemma_targets_in(cx, cy, sz, bm);
        lemma_apply_upto_frame(s0, ts, ts.len(), sp, cm, o, sz);
        lemma_extra_upto_frame(a.0, es, es.len(), ts, sp, sz);
        crate::chain::lemma_extra_in_targets_pub(cx, cy, sz, bm);
        assert(r.board == extra_upto(a.0, es, es.len(), ts, sp));
        assert(r.queue == a.1);
        assert forall|k: int| 0 <= k < r.queue.len() implies (#[trigger] r.queue[k]).0 < sz && r.queue[k].1 < sz by {
            if k < q1.len() {
                assert(r.queue[k] == q1[k]);
            } else {
                assert(ts.contains(r.queue[k]));
                let u = choose|u: int| 0 <= u < ts.len() && ts[u] == r.queue[k];
            }
        }
        assert forall|q: (usize, usize)| q1.contains(q) implies r.queue.contains(q) by {
            let k = choose|k: int| 0 <= k < q1.len() && q1[k] == q;
            assert(r.queue[k] == q);
        }
        assert forall|i: int, j: int| 0 <= i < sz && 0 <= j < sz implies
            ((#[trigger] r.board[i][j]).count as u32) < sp_cell_threshold(i as usize, j as usize, sz, bm, cm)
                || r.queue.contains((i as usize, j as usize)) || r.board[i][j] == b0[i][j] by {
            if r.board[i][j] != a.0[i][j] {
                let k = choose|k: int| 0 <= k < es.len() && es[k] == (i as usize, j as usize) && !is_special_pos(ts, sp, es[k]);
                let e = es[k];
                assert(ts.contains(e));
                let u = choose|u: int| 0 <= u < ts.len() && ts[u] == e;
                assert(!(sp == Some(u as nat) && cm == CapMode::Cap3));
                assert(a.1.contains(ts[u]));
            } else if a.0[i][j] != b1[i][j] {
                assert(a.1.contains((i as usize, j as usize)));
            } else if i == cx && j == cy {
            } else {
                assert(b1[i][j] == st.board[i][j]);
                if st.queue.contains((i as usize, j as usize)) {
                    assert(q1.contains((i as usize, j as usize)));
                }
            }
        }
    } else {
        assert(r.board == st.board);
        assert(r.queue == q1);
    }
}

proof fn lemma_run_settle(init: ChainState, b0: Seq<Seq<Cell>>, sz: usize, bm: BorderMode, cm: CapMode, ds: Seq<(nat, nat, nat)>)
    requires
        bm != BorderMode::Random,
        cm != CapMode::Random,
        settle_inv(init, b0, sz, bm, cm),
    ensures
        run(init, sz, bm, cm, ds) matches Some(s) ==> settle_inv(s, b0, sz, bm, cm),
    decreases ds.len(),
{
    if ds.len() > 0 {
        lemma_run_settle(init, b0, sz, bm, cm, ds.drop_last());
        if let Some(s) = run(init, sz, bm, cm, ds.drop_last()) {
            if step(s, sz, bm, cm, ds.last()) is Some {
                lemma_step_settle(s, b0, sz, bm, cm, ds.last());
            }
        }
    }
}

proof fn lemma_settle_start(
    b0: Seq<Seq<Cell>>,
    sz: usize,
    x: usize,
    y: usize,
    player: usize,
    bm: BorderMode,
    cm: CapMode,
    d0: nat,
)
    requires
        bm != BorderMode::Random,
        cm != CapMode::Random,
        wf(b0, sz as int),
        x < sz,
        y < sz,
        place(b0, sz, x, y, player, bm, cm, d0) is Some,
    ensures
        settle_inv(chain_start(b0, place(b0, sz, x, y, player, bm, cm, d0).unwrap(), x, y, player), b0, sz, bm, cm),
{
    let b1 = place(b0, sz, x, y, player, bm, cm, d0).unwrap();
    let init = chain_start(b0, b1, x, y, player);
    if !is_first_move(b0, x, y, player) {
        assert(init.queue[0] == (x, y));
    }
    assert forall|i: int, j: int| 0 <= i < sz && 0 <= j < sz implies
        ((#[trigger] init.board[i][j]).count as u32) < sp_cell_threshold(i as usize, j as usize, sz, bm, cm)
            || init.queue.contains((i as usize, j as usize)) || init.board[i][j] == b0[i][j] by {
        if i == x && j == y && !is_first_move(b0, x, y, player) {
            assert(init.queue[0] == (x, y));
        }
    }
}

/// A chain that runs until its queue is empty leaves every square it changed below
/// its threshold (fixed thresholds: no random mode).
pub proof fn lemma_changed_squares_settle(
    b0: Seq<Seq<Cell>>,
    sz: usize,
    x: usize,
    y: usize,
    player: usize,
    bm: BorderMode,
    cm: CapMode,
    d0: nat,
    ds: Seq<(nat, nat, nat)>,
    fin: ChainState,
)
    requires
        bm != BorderMode::Random,
        cm != CapMode::Random,
        wf(b0, sz as int),
        x < sz,
        y < sz,
        chain_outcome(b0, sz, x, y, player, bm, cm, d0, ds, fin),
        fin.queue.len() == 0,
    ensures
        forall|i: int, j: int| 0 <= i < sz && 0 <= j < sz && #[trigger] fin.board[i][j] != b0[i][j]
            ==> (fin.board[i][j].count as u32) < sp_cell_threshold(i as usize, j as usize, sz, bm, cm),
{
    let b1 = place(b0, sz, x, y, player, bm, cm, d0).unwrap();
    lemma_settle_start(b0, sz, x, y, player, bm, cm, d0);
    lemma_run_settle(chain_start(b0, b1, x, y, player), b0, sz, bm, cm, ds);
}

/// A chain that runs to its end leaves no square at or above its threshold, when
/// the board had none before and the thresholds are fixed (no random mode).
pub proof fn lemma_chain_settles(
    b0: Seq<Seq<Cell>>,
    sz: usize,
    x: usize,
    y: usize,
    player: usize,
    bm: BorderMode,
    cm: CapMode,
    d0: nat,
    ds: Seq<(nat, nat, nat)>,
    fin: ChainState,
)
    requires
        bm != BorderMode::Random,
        cm != CapMode::Random,
        wf(b0, sz as int),
        x < sz,
        y < sz,
        stable(b0, sz, bm, cm),
        chain_outcome(b0, sz, x, y, player, bm, cm, d0, ds, fin),
        fin.queue.len() == 0,
    ensures
        stable(fin.board, sz, bm, cm),
{
    lemma_changed_squares_settle(b0, sz, x, y, player, bm, cm, d0, ds, fin);
}

/// Steps never undo explosions: a prefix of the draws gives a chain with no more
/// explosions than all of them.
proof fn lemma_run_count_mono(init: ChainState, sz: usize, bm: BorderMode, cm: CapMode, ds: Seq<(nat, nat, nat)>, n: nat)
    requires
        n <= ds.len(),
        run(init, sz, bm, cm, ds) is Some,
    ensures
        run(init, sz, bm, cm, ds.take(n as int)) matches Some(t) && t.count <= run(init, sz, bm, cm, ds).unwrap().count,
    decreases ds.len(),
{
    if n < ds.len() {
        assert(ds.drop_last().take(n as int) =~= ds.take(n as int));
        assert(run(init, sz, bm, cm, ds.drop_last()) is Some);
        lemma_run_count_mono(init, sz, bm, cm, ds.drop_last(), n);
    } else {
        assert(ds.take(n as int) =~= ds);
    }
}

/// The threshold rule on an own square, where thresholds are fixed (no random
/// mode): one piece more that stays below the threshold is just added, with no
/// explosion; one that reaches it sets off at least one explosion.
pub proof fn lemma_threshold_click(
    b0: Seq<Seq<Cell>>,
    sz: usize,
    x: usize,
    y: usize,
    player: usize,
    bm: BorderMode,
    cm: CapMode,
    d0: nat,
    ds: Seq<(nat, nat, nat)>,
    fin: ChainState,
)
    requires
        bm != BorderMode::Random,
        cm != CapMode::Random,
        wf(b0, sz as int),
        x < sz,
        y < sz,
        b0[x as int][y as int].owner == Some(player),
        b0[x as int][y as int].count < 255,
        chain_outcome(b0, sz, x, y, player, bm, cm, d0, ds, fin),
    ensures
        b0[x as int][y as int].count + 1 < sp_cell_threshold(x, y, sz, bm, cm) ==> {
            &&& fin.count == 0
            &&& fin.board == upd(b0, x as int, y as int, Cell {
                owner: Some(player),
                count: (b0[x as int][y as int].count + 1) as u8,
                th: b0[x as int][y as int].th,
            })
        },
        b0[x as int][y as int].count + 1 >= sp_cell_threshold(x, y, sz, bm, cm) ==> fin.count >= 1,
{
    let c0 = b0[x as int][y as int];
    let b1 = place(b0, sz, x, y, player, bm, cm, d0).unwrap();
    assert(!is_first_move(b0, x, y, player)) by {
        assert(b0[x as int][y as int].owner == Some(player));
    }
    let init = chain_start(b0, b1, x, y, player);
    assert(init.queue =~= seq![(x, y)]);
    if ds.len() == 0 {
        assert(run(init, sz, bm, cm, ds) == Some(init));
        assert(false);
    }
    lemma_run_count_mono(init, sz, bm, cm, ds, 1);
    let d = ds[0];
    let one = ds.take(1);
    assert(one.drop_last() =~= Seq::<(nat, nat, nat)>::empty());
    assert(run(init, sz, bm, cm, one.drop_last()) == Some(init));
    assert(one.last() == d);
    assert(run(init, sz, bm, cm, one) == step(init, sz, bm, cm, d));
    let th = sp_cell_threshold(x, y, sz, bm, cm);
    assert(eff_border(bm, d.0) == Some(bm));
    assert(drawn_threshold(x, y, sz, bm, cm, d.1) == Some(th));
    assert(b1[x as int][y as int].count == c0.count + 1);
    if c0.count + 1 < th {
        let s1 = step(init, sz, bm, cm, d).unwrap();
        assert(s1.queue.len() == 0);
        if ds.len() > 1 {
            lemma_run_stops(init, sz, bm, cm, ds, 1);
            assert(false);
        }
        assert(ds =~= ds.take(1));
    }
}

/// Every square either kept its state, belongs to `player`, or is empty with no
/// piece.
pub open spec fn only_gains(b0: Seq<Seq<Cell>>, b: Seq<Seq<Cell>>, sz: usize, player: usize) -> bool {
    forall|i: int, j: int| 0 <= i < sz && 0 <= j < sz ==>
        #[trigger] b[i][j] == b0[i][j] || b[i][j].owner == Some(player)
            || (b[i][j].owner is None && b[i][j].count == 0)
}

/// Invariant of a chain set off by `player`: only `player` gains squares, and every
/// square waiting in the queue is `player`'s or holds no piece.
pub open spec fn gain_inv(s: ChainState, b0: Seq<Seq<Cell>>, sz: usize, player: usize) -> bool {
    &&& wf(s.board, sz as int)
    &&& all_in(s.queue, sz)
    &&& only_gains(b0, s.board, sz, player)
    &&& forall|k: int| 0 <= k < s.queue.len() ==>
        (#[trigger] s.board[s.queue[k].0 as int][s.queue[k].1 as int]).owner == Some(player)
            || s.board[s.queue[k].0 as int][s.queue[k].1 as int].count == 0
}

proof fn lemma_apply_upto_owner(
    s: (Seq<Seq<Cell>>, Seq<(usize, usize)>, Map<usize, usize>),
    ts: Seq<(usize, usize)>,
    n: nat,
    sp: Option<nat>,
    cm: CapMode,
    o: usize,
    sz: usize,
)
    requires
        n <= ts.len(),
        wf(s.0, sz as int),
        all_in(ts, sz),
    ensures
        forall|i: int, j: int| 0 <= i < sz && 0 <= j < sz ==>
            #[trigger] apply_upto(s, ts, n, sp, cm, o).0[i][j] == s.0[i][j]
                || apply_upto(s, ts, n, sp, cm, o).0[i][j].owner == Some(o),
        forall|k: int| 0 <= k < n && !(sp == Some(k as nat) && cm == CapMode::Cap3) ==>
            apply_upto(s, ts, n, sp, cm, o).0[ts[k].0 as int][ts[k].1 as int].owner == Some(o),
        forall|k: int| s.1.len() <= k < apply_upto(s, ts, n, sp, cm, o).1.len() ==>
            apply_upto(s, ts, n, sp, cm, o).0[(#[trigger] apply_upto(s, ts, n, sp, cm, o).1[k]).0 as int][apply_upto(s, ts, n, sp, cm, o).1[k].1 as int].owner == Some(o),
    decreases n,
{
    lemma_apply_upto_frame(s, ts, n, sp, cm, o, sz);
    if n > 0 {
        let m = (n - 1) as nat;
        lemma_apply_upto_owner(s, ts, m, sp, cm, o, sz);
        lemma_apply_upto_frame(s, ts, m, sp, cm, o, sz);
        let p = apply_upto(s, ts, m, sp, cm, o);
        let r = apply_upto(s, ts, n, sp, cm, o);
        let t = ts[m as int];
        assert(t.0 < sz && t.1 < sz);
        if sp == Some(m) && cm == CapMode::Cap3 {
            assert(r == p);
        } else {
            assert(r.0 == upd(p.0, t.0 as int, t.1 as int, Cell {
                owner: Some(o),
                count: crate::chain::sat_add(p.0[t.0 as int][t.1 as int].count, if sp == Some(m) { 2 } else { 1 }),
                th: p.0[t.0 as int][t.1 as int].th,
            }));
            assert(r.1 == p.1.push(t));
            assert forall|i: int, j: int| 0 <= i < sz && 0 <= j < sz implies
                #[trigger] r.0[i][j] == s.0[i][j] || r.0[i][j].owner == Some(o) by {
                if !(i == t.0 && j == t.1) {
                    assert(r.0[i][j] == p.0[i][j]);
                }
            }
            assert forall|k: int| 0 <= k < n && !(sp == Some(k as nat) && cm == CapMode::Cap3) implies
                r.0[ts[k].0 as int][ts[k].1 as int].owner == Some(o) by {
                let q = ts[k];
                assert(q.0 < sz && q.1 < sz);
                if !(q.0 == t.0 && q.1 == t.1) {
                    assert(r.0[q.0 as int][q.1 as int] == p.0[q.0 as int][q.1 as int]);
                }
            }
            assert forall|k: int| s.1.len() <= k < r.1.len() implies
                r.0[(#[trigger] r.1[k]).0 as int][r.1[k].1 as int].owner == Some(o) by {
                let q = r.1[k];
                if k < p.1.len() {
                    assert(q == p.1[k]);
                    assert(ts.contains(q));
                    let u = choose|u: int| 0 <= u < ts.len() && ts[u] == q;
                    assert(q.0 < sz && q.1 < sz);
                    if !(q.0 == t.0 && q.1 == t.1) {
                        assert(r.0[q.0 as int][q.1 as int] == p.0[q.0 as int][q.1 as int]);
                    }
                }
            }
        }
    }
}

proof fn lemma_extra_upto_owner(b: Seq<Seq<Cell>>, es: Seq<(usize, usize)>, n: nat, ts: Seq<(usize, usize)>, sp: Option<nat>, sz: usize)
    requires
        n <= es.len(),
        wf(b, sz as int),
        all_in(es, sz),
    ensures
        forall|i: int, j: int| 0 <= i < sz && 0 <= j < sz ==>
            (#[trigger] extra_upto(b, es, n, ts, sp)[i][j]).owner == b[i][j].owner,
    decreases n,
{
    lemma_extra_upto_frame(b, es, n, ts, sp, sz);
    if n > 0 {
        let m = (n - 1) as nat;
        lemma_extra_upto_owner(b, es, m, ts, sp, sz);
        lemma_extra_upto_frame(b, es, m, ts, sp, sz);
        let e = es[m as int];
        assert(e.0 < sz && e.1 < sz);
        let b1 = extra_upto(b, es, m, ts, sp);
        let r = extra_upto(b, es, n, ts, sp);
        assert forall|i: int, j: int| 0 <= i < sz && 0 <= j < sz implies (#[trigger] r[i][j]).owner == b[i][j].owner by {
            if !is_special_pos(ts, sp, e) && i == e.0 && j == e.1 {
            } else {
                assert(r[i][j] == b1[i][j]);
            }
        }
    }
}

proof fn lemma_step_gain(st: ChainState, b0: Seq<Seq<Cell>>, sz: usize, bm: BorderMode, cm: CapMode, d: (nat, nat, nat), player: usize)
    requires
        gain_inv(st, b0, sz, player),
        step(st, sz, bm, cm, d) is Some,
    ensures
        gain_inv(step(st, sz, bm, cm, d).unwrap(), b0, sz, player),
{
    let r = step(st, sz, bm, cm, d).unwrap();
    let cx = st.queue[0].0;
    let cy = st.queue[0].1;
    let q1 = st.queue.drop_first();
    assert(cx < sz && cy < sz);
    let eb = eff_border(bm, d.0).unwrap();
    let th = drawn_threshold(cx, cy, sz, eb, cm, d.1).unwrap();
    let c = st.board[cx as int][cy as int];
    assert(all_in(q1, sz)) by {
        assert forall|k: int| 0 <= k < q1.len() implies (#[trigger] q1[k]).0 < sz && q1[k].1 < sz by {
            assert(q1[k] == st.queue[k + 1]);
        }
    }
    assert forall|k: int| 0 <= k < q1.len() implies
        (#[trigger] st.board[q1[k].0 as int][q1[k].1 as int]).owner == Some(player)
            || st.board[q1[k].0 as int][q1[k].1 as int].count == 0 by {
        assert(q1[k] == st.queue[k + 1]);
    }
    if (c.count as u32) >= th {
        assert(th >= 2);
        assert(st.board[st.queue[0].0 as int][st.queue[0].1 as int] == c);
        assert(c.owner == Some(player));
        let o = c.owner.unwrap();
        let b1 = upd(st.board, cx as int, cy as int, Cell { owner: None, count: 0, th: c.th });
        let ts = sp_targets(cx, cy, sz, eb);
        let es = sp_extra(cx, cy, sz, eb);
        let sp = sp_special(cm, ts.len(), d.2).unwrap();
        let s0 = (b1, q1, st.killers);
        let a = apply_upto(s0, ts, ts.len(), sp, cm, o);
        crate::chain::lemma_targets_in(cx, cy, sz, eb);
        crate::chain::lemma_extra_in_targets_pub(cx, cy, sz, eb);
        lemma_apply_upto_frame(s0, ts, ts.len(), sp, cm, o, sz);
        lemma_apply_upto_owner(s0, ts, ts.len(), sp, cm, o, sz);
        lemma_extra_upto_frame(a.0, es, es.len(), ts, sp, sz);
        lemma_extra_upto_owner(a.0, es, es.len(), ts, sp, sz);
        assert(r.board == extra_upto(a.0, es, es.len(), ts, sp));
        assert(r.queue == a.1);
        // an extra piece lands on a target that took `player`'s colour
        assert forall|i: int, j: int| 0 <= i < sz && 0 <= j < sz && #[trigger] r.board[i][j] != a.0[i][j]
            implies a.0[i][j].owner == Some(player) by {
            let k = choose|k: int| 0 <= k < es.len() && es[k] == (i as usize, j as usize) && !is_special_pos(ts, sp, es[k]);
            let e = es[k];
            assert(ts.contains(e));
            let u = choose|u: int| 0 <= u < ts.len() && ts[u] == e;
            assert(sp != Some(u as nat));
            assert(a.0[ts[u].0 as int][ts[u].1 as int].owner == Some(o));
        }
        assert forall|k: int| 0 <= k < r.queue.len() implies (#[trigger] r.queue[k]).0 < sz && r.queue[k].1 < sz by {
            if k < q1.len() {
                assert(r.queue[k] == q1[k]);
            } else {
                assert(ts.contains(r.queue[k]));
                let u = choose|u: int| 0 <= u < ts.len() && ts[u] == r.queue[k];
            }
        }
        assert forall|i: int, j: int| 0 <= i < sz && 0 <= j < sz implies
            #[trigger] r.board[i][j] == b0[i][j] || r.board[i][j].owner == Some(player)
                || (r.board[i][j].owner is None && r.board[i][j].count == 0) by {
            assert(r.board[i][j].owner == a.0[i][j].owner);
            if r.board[i][j] != a.0[i][j] {
            } else if a.0[i][j] != b1[i][j] {
            } else if i == cx && j == cy {
            } else {
                assert(b1[i][j] == st.board[i][j]);
            }
        }
        assert forall|k: int| 0 <= k < r.queue.len() implies
            (#[trigger] r.board[r.queue[k].0 as int][r.queue[k].1 as int]).owner == Some(player)
                || r.board[r.queue[k].0 as int][r.queue[k].1 as int].count == 0 by {
            let q = r.queue[k];
            assert(q.0 < sz && q.1 < sz);
            assert(r.board[q.0 as int][q.1 as int].owner == a.0[q.0 as int][q.1 as int].owner);
            if k >= q1.len() {
                assert(a.0[(a.1[k]).0 as int][a.1[k].1 as int].owner == Some(o));
            } else {
                assert(q == q1[k]);
                if r.board[q.0 as int][q.1 as int] != a.0[q.0 as int][q.1 as int] {
                } else if a.0[q.0 as int][q.1 as int] != b1[q.0 as int][q.1 as int] {
                } else if q.0 == cx && q.1 == cy {
                } else {
                    assert(b1[q.0 as int][q.1 as int] == st.board[q.0 as int][q.1 as int]);
                }
            }
        }
    } else {
        assert(r.board == st.board);
        assert(r.queue == q1);
    }
}

proof fn lemma_run_gain(init: ChainState, b0: Seq<Seq<Cell>>, sz: usize, bm: BorderMode, cm: CapMode, ds: Seq<(nat, nat, nat)>, player: usize)
    requires
        gain_inv(init, b0, sz, player),
    ensures
        run(init, sz, bm, cm, ds) matches Some(s) ==> gain_inv(s, b0, sz, player),
    decreases ds.len(),
{
    if ds.len() > 0 {
        lemma_run_gain(init, b0, sz, bm, cm, ds.drop_last(), player);
        if let Some(s) = run(init, sz, bm, cm, ds.drop_last()) {
            if step(s, sz, bm, cm, ds.last()) is Some {
                lemma_step_gain(s, b0, sz, bm, cm, ds.last(), player);
            }
        }
    }
}

/// A click takes squares only for the clicking player: after the chain every
/// square either is as it was, belongs to the player who clicked, or is empty (an
/// exploded square).
pub proof fn lemma_only_clicker_gains(
    b0: Seq<Seq<Cell>>,
    sz: usize,
    x: usize,
    y: usize,
    player: usize,
    bm: BorderMode,
    cm: CapMode,
    d0: nat,
    ds: Seq<(nat, nat, nat)>,
    fin: ChainState,
)
    requires
        wf(b0, sz as int),
        x < sz,
        y < sz,
        !is_opponent(b0, x, y, player),
        chain_outcome(b0, sz, x, y, player, bm, cm, d0, ds, fin),
    ensures
        only_gains(b0, fin.board, sz, player),
{
    let b1 = place(b0, sz, x, y, player, bm, cm, d0).unwrap();
    let init = chain_start(b0, b1, x, y, player);
    assert(b1[x as int][y as int].owner == Some(player));
    assert(gain_inv(init, b0, sz, player)) by {
        assert forall|i: int, j: int| 0 <= i < sz && 0 <= j < sz implies
            #[trigger] b1[i][j] == b0[i][j] || b1[i][j].owner == Some(player)
                || (b1[i][j].owner is None && b1[i][j].count == 0) by {
            if !(i == x && j == y) {
                assert(b1[i][j] == b0[i][j]);
            }
        }
        if !is_first_move(b0, x, y, player) {
            assert(init.queue[0] == (x, y));
        }
    }
    lemma_run_gain(init, b0, sz, bm, cm, ds, player);
}

/// The same for any click as the library reports it (a click on another player's
/// square changes nothing).
pub proof fn lemma_click_only_gains(
    b0: Seq<Seq<Cell>>,
    b: Seq<Seq<Cell>>,
    sz: usize,
    x: usize,
    y: usize,
    player: usize,
    bm: BorderMode,
    cm: CapMode,
    collect: bool,
    elim: Seq<usize>,
    chain_count: u32,
    killed: Seq<(usize, usize)>,
    steps: Seq<Seq<Seq<Cell>>>,
    exploded: Seq<(usize, usize)>,
)
    requires
        wf(b0, sz as int),
        x < sz,
        y < sz,
        click_result(b0, b, sz, x, y, player, bm, cm, collect, elim, chain_count, killed, steps, exploded),
    ensures
        only_gains(b0, b, sz, player),
{
    if !is_opponent(b0, x, y, player) {
        let (d0, ds, fin) = choose|d0: nat, ds: Seq<(nat, nat, nat)>, fin: ChainState| {
            &&& #[trigger] chain_outcome(b0, sz, x, y, player, bm, cm, d0, ds, fin)
            &&& b == fin.board
            &&& chain_count == fin.count
            &&& is_elim_list(b0, fin.board, elim)
            &&& killed == killed_list(elim, fin.killers)
            &&& if collect {
                steps == fin.steps && exploded == fin.exploded
            } else {
                steps.len() == 0 && exploded.len() == 0
            }
        };
        lemma_only_clicker_gains(b0, sz, x, y, player, bm, cm, d0, ds, fin);
    }
}

/// The threshold rule for a click as the library reports it (fixed thresholds): on
/// an own square one piece more below the threshold is just added; one that reaches
/// the threshold sets off a chain.
pub proof fn lemma_click_threshold(
    b0: Seq<Seq<Cell>>,
    b: Seq<Seq<Cell>>,
    sz: usize,
    x: usize,
    y: usize,
    player: usize,
    bm: BorderMode,
    cm: CapMode,
    collect: bool,
    elim: Seq<usize>,
    chain_count: u32,
    killed: Seq<(usize, usize)>,
    steps: Seq<Seq<Seq<Cell>>>,
    exploded: Seq<(usize, usize)>,
)
    requires
        bm != BorderMode::Random,
        cm != CapMode::Random,
        wf(b0, sz as int),
        x < sz,
        y < sz,
        b0[x as int][y as int].owner == Some(player),
        b0[x as int][y as int].count < 255,
        click_result(b0, b, sz, x, y, player, bm, cm, collect, elim, chain_count, killed, steps, exploded),
    ensures
        b0[x as int][y as int].count + 1 < sp_cell_threshold(x, y, sz, bm, cm) ==> {
            &&& chain_count == 0
            &&& b == upd(b0, x as int, y as int, Cell {
                owner: Some(player),
                count: (b0[x as int][y as int].count + 1) as u8,
                th: b0[x as int][y as int].th,
            })
        },
        b0[x as int][y as int].count + 1 >= sp_cell_threshold(x, y, sz, bm, cm) ==> chain_count >= 1,
{
    let (d0, ds, fin) = choose|d0: nat, ds: Seq<(nat, nat, nat)>, fin: ChainState| {
        &&& #[trigger] chain_outcome(b0, sz, x, y, player, bm, cm, d0, ds, fin)
        &&& b == fin.board
        &&& chain_count == fin.count
        &&& is_elim_list(b0, fin.board, elim)
        &&& killed == killed_list(elim, fin.killers)
        &&& if collect {
            steps == fin.steps && exploded == fin.exploded
        } else {
            steps.len() == 0 && exploded.len() == 0
        }
    };
    lemma_threshold_click(b0, sz, x, y, player, bm, cm, d0, ds, fin);
}

/// A click on a square of another player is refused: the board stays as it was and
/// nothing is reported.
pub proof fn lemma_rival_click_noop(
    b0: Seq<Seq<Cell>>,
    b: Seq<Seq<Cell>>,
    sz: usize,
    x: usize,
    y: usize,
    player: usize,
    bm: BorderMode,
    cm: CapMode,
    collect: bool,
    elim: Seq<usize>,
    chain_count: u32,
    killed: Seq<(usize, usize)>,
    steps: Seq<Seq<Seq<Cell>>>,
    exploded: Seq<(usize, usize)>,
)
    requires
        click_result(b0, b, sz, x, y, player, bm, cm, collect, elim, chain_count, killed, steps, exploded),
        is_opponent(b0, x, y, player),
    ensures
        b == b0,
        elim.len() == 0,
        chain_count == 0,
        killed.len() == 0,
        steps.len() == 0,
        exploded.len() == 0,
{
}

/// The eliminated players of a click are listed in ascending order, and they are
/// exactly the players who had a square before the click and have none after it.
pub proof fn lemma_click_eliminated(
    b0: Seq<Seq<Cell>>,
    b: Seq<Seq<Cell>>,
    sz: usize,
    x: usize,
    y: usize,
    player: usize,
    bm: BorderMode,
    cm: CapMode,
    collect: bool,
    elim: Seq<usize>,
    chain_count: u32,
    killed: Seq<(usize, usize)>,
    steps: Seq<Seq<Seq<Cell>>>,
    exploded: Seq<(usize, usize)>,
)
    requires
        click_result(b0, b, sz, x, y, player, bm, cm, collect, elim, chain_count, killed, steps, exploded),
    ensures
        forall|i: int, j: int| 0 <= i < j < elim.len() ==> elim[i] < elim[j],
        forall|p: usize| elim.contains(p) <==> (owns_any(b0, p) && !owns_any(b, p)),
{
    if !is_opponent(b0, x, y, player) {
        let (d0, ds, fin) = choose|d0: nat, ds: Seq<(nat, nat, nat)>, fin: ChainState| {
            &&& #[trigger] chain_outcome(b0, sz, x, y, player, bm, cm, d0, ds, fin)
            &&& b == fin.board
            &&& chain_count == fin.count
            &&& is_elim_list(b0, fin.board, elim)
            &&& killed == killed_list(elim, fin.killers)
            &&& if collect {
                steps == fin.steps && exploded == fin.exploded
            } else {
                steps.len() == 0 && exploded.len() == 0
            }
        };
        assert(is_elim_list(b0, b, elim));
    }
}

/// The recorded snapshots of a click: one board and one square per explosion, and
/// the last board is the board the click leaves.
pub proof fn lemma_click_result_snapshots(
    b0: Seq<Seq<Cell>>,
    b: Seq<Seq<Cell>>,
    sz: usize,
    x: usize,
    y: usize,
    player: usize,
    bm: BorderMode,
    cm: CapMode,
    elim: Seq<usize>,
    chain_count: u32,
    killed: Seq<(usize, usize)>,
    steps: Seq<Seq<Seq<Cell>>>,
    exploded: Seq<(usize, usize)>,
)
    requires
        click_result(b0, b, sz, x, y, player, bm, cm, true, elim, chain_count, killed, steps, exploded),
    ensures
        steps.len() == chain_count,
        exploded.len() == chain_count,
        chain_count > 0 ==> steps.last() == b,
{
    if !is_opponent(b0, x, y, player) {
        let (d0, ds, fin) = choose|d0: nat, ds: Seq<(nat, nat, nat)>, fin: ChainState| {
            &&& #[trigger] chain_outcome(b0, sz, x, y, player, bm, cm, d0, ds, fin)
            &&& b == fin.board
            &&& chain_count == fin.count
            &&& is_elim_list(b0, fin.board, elim)
            &&& killed == killed_list(elim, fin.killers)
            &&& steps == fin.steps && exploded == fin.exploded
        };
        lemma_click_snapshots(b0, sz, x, y, player, bm, cm, d0, ds, fin);
    }
}

/// Under one seed, the click that records snapshots reports the same board,
/// eliminated players, explosion count and attackers as the click that does not.
pub proof fn lemma_seeded_snapshots_agree(
    b0: Seq<Seq<Cell>>,
    sz: usize,
    x: usize,
    y: usize,
    player: usize,
    bm: BorderMode,
    cm: CapMode,
    s: u64,
)
    ensures
        ({
            let a = seeded_click(b0, sz, x, y, player, bm, cm, s, true);
            let c = seeded_click(b0, sz, x, y, player, bm, cm, s, false);
            a.0 == c.0 && a.1 == c.1 && a.2 == c.2 && a.3 == c.3
        }),
{
}

/// The attackers recorded by a chain set off by `player`: each recorded attacker is
/// `player`, every other player that has lost a square it held in `b0` is recorded,
/// and (on a board of at least two squares a side) `player` holds a square.
pub open spec fn kill_inv(s: ChainState, b0: Seq<Seq<Cell>>, sz: usize, player: usize) -> bool {
    &&& forall|q: usize| #[trigger] s.killers.contains_key(q) ==> s.killers[q] == player
    &&& forall|i: int, j: int| 0 <= i < sz && 0 <= j < sz && (#[trigger] b0[i][j]).owner is Some
        && b0[i][j].owner != Some(player) && s.board[i][j].owner != b0[i][j].owner
        ==> s.killers.contains_key(b0[i][j].owner.unwrap())
    &&& sz >= 2 ==> owns_any(s.board, player)
}

proof fn lemma_apply_upto_kill(
    s: (Seq<Seq<Cell>>, Seq<(usize, usize)>, Map<usize, usize>),
    ts: Seq<(usize, usize)>,
    n: nat,
    sp: Option<nat>,
    cm: CapMode,
    o: usize,
    sz: usize,
    b0: Seq<Seq<Cell>>,
)
    requires
        n <= ts.len(),
        wf(s.0, sz as int),
        all_in(ts, sz),
        forall|q: usize| #[trigger] s.2.contains_key(q) ==> s.2[q] == o,
        forall|i: int, j: int| 0 <= i < sz && 0 <= j < sz && (#[trigger] b0[i][j]).owner is Some
            && b0[i][j].owner != Some(o) && s.0[i][j].owner != b0[i][j].owner
            ==> s.2.contains_key(b0[i][j].owner.unwrap()),
    ensures
        forall|q: usize| #[trigger] apply_upto(s, ts, n, sp, cm, o).2.contains_key(q) ==> apply_upto(s, ts, n, sp, cm, o).2[q] == o,
        forall|i: int, j: int| 0 <= i < sz && 0 <= j < sz && (#[trigger] b0[i][j]).owner is Some
            && b0[i][j].owner != Some(o) && apply_upto(s, ts, n, sp, cm, o).0[i][j].owner != b0[i][j].owner
            ==> apply_upto(s, ts, n, sp, cm, o).2.contains_key(b0[i][j].owner.unwrap()),
    decreases n,
{
    if n > 0 {
        let m = (n - 1) as nat;
        lemma_apply_upto_kill(s, ts, m, sp, cm, o, sz, b0);
        lemma_apply_upto_frame(s, ts, m, sp, cm, o, sz);
        let p = apply_upto(s, ts, m, sp, cm, o);
        let r = apply_upto(s, ts, n, sp, cm, o);
        let t = ts[m as int];
        assert(t.0 < sz && t.1 < sz);
        assert(r == apply_one(p, t, m, sp, cm, o));
        if sp == Some(m) && cm == CapMode::Cap3 {
        } else {
            let c = p.0[t.0 as int][t.1 as int];
            assert forall|q: usize| p.2.contains_key(q) implies #[trigger] r.2.contains_key(q) by {
            }
            assert forall|i: int, j: int| 0 <= i < sz && 0 <= j < sz && (#[trigger] b0[i][j]).owner is Some
                && b0[i][j].owner != Some(o) && r.0[i][j].owner != b0[i][j].owner
                implies r.2.contains_key(b0[i][j].owner.unwrap()) by {
                let q = b0[i][j].owner.unwrap();
                if i == t.0 && j == t.1 {
                    if c.owner == Some(q) {
                        assert(r.2 == p.2.insert(q, o));
                    } else {
                        assert(p.2.contains_key(q));
                    }
                } else {
                    assert(r.0[i][j] == p.0[i][j]);
                    assert(p.2.contains_key(q));
                }
            }
        }
    }
}

proof fn lemma_nbrs_two(i: usize, j: usize, sz: usize, bm: BorderMode)
    requires
        sz >= 2,
        i < sz,
        j < sz,
    ensures
        sp_targets(i, j, sz, bm).len() >= 2,
{
}

proof fn lemma_step_kill(st: ChainState, b0: Seq<Seq<Cell>>, sz: usize, bm: BorderMode, cm: CapMode, d: (nat, nat, nat), player: usize)
    requires
        gain_inv(st, b0, sz, player),
        kill_inv(st, b0, sz, player),
        step(st, sz, bm, cm, d) is Some,
    ensures
        kill_inv(step(st, sz, bm, cm, d).unwrap(), b0, sz, player),
{
    let r = step(st, sz, bm, cm, d).unwrap();
    let cx = st.queue[0].0;
    let cy = st.queue[0].1;
    let q1 = st.queue.drop_first();
    assert(cx < sz && cy < sz);
    let eb = eff_border(bm, d.0).unwrap();
    let th = drawn_threshold(cx, cy, sz, eb, cm, d.1).unwrap();
    let c = st.board[cx as int][cy as int];
    if (c.count as u32) >= th {
        assert(th >= 2);
        assert(st.board[st.queue[0].0 as int][st.queue[0].1 as int] == c);
        assert(c.owner == Some(player));
        let o = c.owner.unwrap();
        let b1 = upd(st.board, cx as int, cy as int, Cell { owner: None, count: 0, th: c.th });
        let ts = sp_targets(cx, cy, sz, eb);
        let es = sp_extra(cx, cy, sz, eb);
        let sp = sp_special(cm, ts.len(), d.2).unwrap();
        let s0 = (b1, q1, st.killers);
        crate::chain::lemma_targets_in(cx, cy, sz, eb);
        assert forall|i: int, j: int| 0 <= i < sz && 0 <= j < sz && (#[trigger] b0[i][j]).owner is Some
            && b0[i][j].owner != Some(o) && s0.0[i][j].owner != b0[i][j].owner
            implies s0.2.contains_key(b0[i][j].owner.unwrap()) by {
            if !(i == cx && j == cy) {
                assert(b1[i][j] == st.board[i][j]);
            }
        }
        lemma_apply_upto_kill(s0, ts, ts.len(), sp, cm, o, sz, b0);
        lemma_apply_upto_frame(s0, ts, ts.len(), sp, cm, o, sz);
        lemma_apply_upto_owner(s0, ts, ts.len(), sp, cm, o, sz);
        let a = apply_upto(s0, ts, ts.len(), sp, cm, o);
        lemma_extra_upto_frame(a.0, es, es.len(), ts, sp, sz);
        lemma_extra_upto_owner(a.0, es, es.len(), ts, sp, sz);
        assert(r.board == extra_upto(a.0, es, es.len(), ts, sp));
        assert(r.killers == a.2);
        if sz >= 2 {
            lemma_nbrs_two(cx, cy, sz, eb);
            let k0: int = if sp == Some(0nat) { 1 } else { 0 };
            assert(!(sp == Some(k0 as nat) && cm == CapMode::Cap3));
            let t = ts[k0];
            assert(t.0 < sz && t.1 < sz);
            assert(a.0[t.0 as int][t.1 as int].owner == Some(o));
            assert(r.board[t.0 as int][t.1 as int].owner == Some(player));
            assert(owns_any(r.board, player));
        }
    } else {
        assert(r.board == st.board);
        assert(r.killers == st.killers);
    }
}

proof fn lemma_run_kill(init: ChainState, b0: Seq<Seq<Cell>>, sz: usize, bm: BorderMode, cm: CapMode, ds: Seq<(nat, nat, nat)>, player: usize)
    requires
        gain_inv(init, b0, sz, player),
        kill_inv(init, b0, sz, player),
    ensures
        run(init, sz, bm, cm, ds) matches Some(s) ==> gain_inv(s, b0, sz, player) && kill_inv(s, b0, sz, player),
    decreases ds.len(),
{
    if ds.len() > 0 {
        lemma_run_kill(init, b0, sz, bm, cm, ds.drop_last(), player);
        if let Some(s) = run(init, sz, bm, cm, ds.drop_last()) {
            if step(s, sz, bm, cm, ds.last()) is Some {
                lemma_step_gain(s, b0, sz, bm, cm, ds.last(), player);
                lemma_step_kill(s, b0, sz, bm, cm, ds.last(), player);
            }
        }
    }
}

proof fn lemma_killed_list_all(elim: Seq<usize>, kl: Map<usize, usize>, player: usize)
    requires
        forall|k: int| 0 <= k < elim.len() ==> #[trigger] kl.contains_key(elim[k]) && kl[elim[k]] == player,
    ensures
        killed_list(elim, kl) == elim.map_values(|v: usize| (v, player)),
    decreases elim.len(),
{
    if elim.len() > 0 {
        let e1 = elim.drop_last();
        assert forall|k: int| 0 <= k < e1.len() implies #[trigger] kl.contains_key(e1[k]) && kl[e1[k]] == player by {
            assert(e1[k] == elim[k]);
            assert(kl.contains_key(elim[k]));
        }
        lemma_killed_list_all(e1, kl, player);
        assert(kl.contains_key(elim[elim.len() - 1]));
        assert(elim.map_values(|v: usize| (v, player)) =~= e1.map_values(|v: usize| (v, player)).push((elim.last(), player)));
    } else {
        assert(elim.map_values(|v: usize| (v, player)) =~= Seq::<(usize, usize)>::empty());
    }
}

/// Every player a click eliminates is listed with the clicking player as its
/// attacker, in the order of the eliminated list, and the clicking player never
/// eliminates itself (on a board of at least two squares a side).
pub proof fn lemma_click_killers(
    b0: Seq<Seq<Cell>>,
    b: Seq<Seq<Cell>>,
    sz: usize,
    x: usize,
    y: usize,
    player: usize,
    bm: BorderMode,
    cm: CapMode,
    collect: bool,
    elim: Seq<usize>,
    chain_count: u32,
    killed: Seq<(usize, usize)>,
    steps: Seq<Seq<Seq<Cell>>>,
    exploded: Seq<(usize, usize)>,
)
    requires
        sz >= 2,
        wf(b0, sz as int),
        x < sz,
        y < sz,
        click_result(b0, b, sz, x, y, player, bm, cm, collect, elim, chain_count, killed, steps, exploded),
    ensures
        killed == elim.map_values(|v: usize| (v, player)),
        !elim.contains(player),
{
    if is_opponent(b0, x, y, player) {
        assert(elim.map_values(|v: usize| (v, player)) =~= killed);
    } else {
        let (d0, ds, fin) = choose|d0: nat, ds: Seq<(nat, nat, nat)>, fin: ChainState| {
            &&& #[trigger] chain_outcome(b0, sz, x, y, player, bm, cm, d0, ds, fin)
            &&& b == fin.board
            &&& chain_count == fin.count
            &&& is_elim_list(b0, fin.board, elim)
            &&& killed == killed_list(elim, fin.killers)
            &&& if collect {
                steps == fin.steps && exploded == fin.exploded
            } else {
                steps.len() == 0 && exploded.len() == 0
            }
        };
        let b1 = place(b0, sz, x, y, player, bm, cm, d0).unwrap();
        let init = chain_start(b0, b1, x, y, player);
        assert(b1[x as int][y as int].owner == Some(player));
        assert(gain_inv(init, b0, sz, player)) by {
            assert forall|i: int, j: int| 0 <= i < sz && 0 <= j < sz implies
                #[trigger] b1[i][j] == b0[i][j] || b1[i][j].owner == Some(player)
                    || (b1[i][j].owner is None && b1[i][j].count == 0) by {
                if !(i == x && j == y) {
                    assert(b1[i][j] == b0[i][j]);
                }
            }
            if !is_first_move(b0, x, y, player) {
                assert(init.queue[0] == (x, y));
            }
        }
        assert(kill_inv(init, b0, sz, player)) by {
            assert forall|i: int, j: int| 0 <= i < sz && 0 <= j < sz && (#[trigger] b0[i][j]).owner is Some
                && b0[i][j].owner != Some(player) && init.board[i][j].owner != b0[i][j].owner
                implies init.killers.contains_key(b0[i][j].owner.unwrap()) by {
                if !(i == x && j == y) {
                    assert(b1[i][j] == b0[i][j]);
                }
            }
            assert(owns_any(b1, player));
        }
        lemma_run_kill(init, b0, sz, bm, cm, ds, player);
        assert(wf(fin.board, sz as int));
        assert forall|k: int| 0 <= k < elim.len() implies #[trigger] fin.killers.contains_key(elim[k])
            && fin.killers[elim[k]] == player by {
            let p = elim[k];
            assert(elim.contains(p));
            assert(owns_any(b0, p) && !owns_any(fin.board, p));
            let (i, j) = choose|i: int, j: int| 0 <= i < b0.len() && 0 <= j < b0[i].len() && #[trigger] b0[i][j].owner == Some(p);
            assert(fin.board[i][j].owner != Some(p));
            assert(p != player);
            assert(b0[i][j].owner != fin.board[i][j].owner);
            assert(fin.killers.contains_key(p));
        }
        lemma_killed_list_all(elim, fin.killers, player);
    }
}

proof fn lemma_run_quiet(init: ChainState, sz: usize, bm: BorderMode, cm: CapMode, ds: Seq<(nat, nat, nat)>)
    ensures
        run(init, sz, bm, cm, ds) matches Some(s) ==> s.count >= init.count
            && (s.count == init.count ==> s.board == init.board && s.killers == init.killers),
    decreases ds.len(),
{
    if ds.len() > 0 {
        lemma_run_quiet(init, sz, bm, cm, ds.drop_last());
    }
}

/// A click that sets off no explosion only places its piece: the clicked square
/// becomes the clicker's (one more piece on its own square, one piece on an empty
/// square once it has pieces), every other square keeps its state, and no player is
/// eliminated.
pub proof fn lemma_quiet_click(
    b0: Seq<Seq<Cell>>,
    b: Seq<Seq<Cell>>,
    sz: usize,
    x: usize,
    y: usize,
    player: usize,
    bm: BorderMode,
    cm: CapMode,
    collect: bool,
    elim: Seq<usize>,
    chain_count: u32,
    killed: Seq<(usize, usize)>,
    steps: Seq<Seq<Seq<Cell>>>,
    exploded: Seq<(usize, usize)>,
)
    requires
        click_ok(b0, sz, x, y, player),
        click_result(b0, b, sz, x, y, player, bm, cm, collect, elim, chain_count, killed, steps, exploded),
        !is_opponent(b0, x, y, player),
        chain_count == 0,
    ensures
        b[x as int][y as int].owner == Some(player),
        forall|i: int, j: int| 0 <= i < sz && 0 <= j < sz && !(i == x && j == y) ==> #[trigger] b[i][j] == b0[i][j],
        b0[x as int][y as int].owner == Some(player) ==> b[x as int][y as int].count == b0[x as int][y as int].count + 1,
        b0[x as int][y as int].owner is None && owns_any(b0, player) ==> b[x as int][y as int].count == 1,
        elim.len() == 0,
        killed.len() == 0,
{
    let (d0, ds, fin) = choose|d0: nat, ds: Seq<(nat, nat, nat)>, fin: ChainState| {
        &&& #[trigger] chain_outcome(b0, sz, x, y, player, bm, cm, d0, ds, fin)
        &&& b == fin.board
        &&& chain_count == fin.count
        &&& is_elim_list(b0, fin.board, elim)
        &&& killed == killed_list(elim, fin.killers)
        &&& if collect {
            steps == fin.steps && exploded == fin.exploded
        } else {
            steps.len() == 0 && exploded.len() == 0
        }
    };
    let b1 = place(b0, sz, x, y, player, bm, cm, d0).unwrap();
    let init = chain_start(b0, b1, x, y, player);
    lemma_run_quiet(init, sz, bm, cm, ds);
    assert(b == b1);
    assert forall|i: int, j: int| 0 <= i < sz && 0 <= j < sz && !(i == x && j == y) implies #[trigger] b[i][j] == b0[i][j] by {}
    if elim.len() > 0 {
        let p = elim[0];
        assert(elim.contains(p));
        assert(owns_any(b0, p));
        let (i, j) = choose|i: int, j: int| 0 <= i < b0.len() && 0 <= j < b0[i].len() && #[trigger] b0[i][j].owner == Some(p);
        if i == x && j == y {
            assert(p == player);
            assert(b[x as int][y as int].owner == Some(player));
        } else {
            assert(b[i][j] == b0[i][j]);
        }
        assert(owns_any(b, p));
    }
}

proof fn lemma_run_split(init: ChainState, sz: usize, bm: BorderMode, cm: CapMode, a: Seq<(nat, nat, nat)>, b: Seq<(nat, nat, nat)>)
    ensures
        run(init, sz, bm, cm, a + b) == match run(init, sz, bm, cm, a) {
            Some(s) => run(s, sz, bm, cm, b),
            None => None,
        },
    decreases b.len(),
{
    if b.len() == 0 {
        assert(a + b =~= a);
    } else {
        lemma_run_split(init, sz, bm, cm, a, b.drop_last());
        assert((a + b).drop_last() =~= a + b.drop_last());
        assert((a + b).last() == b.last());
    }
}

/// What a target of an explosion of a square of `o` becomes: under cap 3 the special
/// target keeps its state; otherwise it takes `o`'s colour with one more piece, two
/// for the special target under cap 5.
pub open spec fn target_cell(c: Cell, k: int, sp: Option<nat>, cm: CapMode, o: usize) -> Cell {
    if sp == Some(k as nat) && cm == CapMode::Cap3 {
        c
    } else {
        Cell { owner: Some(o), count: crate::chain::sat_add(c.count, if sp == Some(k as nat) { 2 } else { 1 }), th: c.th }
    }
}

proof fn lemma_apply_distinct(
    s: (Seq<Seq<Cell>>, Seq<(usize, usize)>, Map<usize, usize>),
    ts: Seq<(usize, usize)>,
    n: nat,
    sp: Option<nat>,
    cm: CapMode,
    o: usize,
    sz: usize,
)
    requires
        n <= ts.len(),
        wf(s.0, sz as int),
        all_in(ts, sz),
        forall|a: int, c: int| 0 <= a < c < ts.len() ==> ts[a] != ts[c],
    ensures
        wf(apply_upto(s, ts, n, sp, cm, o).0, sz as int),
        forall|k: int| 0 <= k < n ==> #[trigger] apply_upto(s, ts, n, sp, cm, o).0[ts[k].0 as int][ts[k].1 as int]
            == target_cell(s.0[ts[k].0 as int][ts[k].1 as int], k, sp, cm, o),
        forall|i: int, j: int| 0 <= i < sz && 0 <= j < sz && !ts.take(n as int).contains((i as usize, j as usize))
            ==> #[trigger] apply_upto(s, ts, n, sp, cm, o).0[i][j] == s.0[i][j],
    decreases n,
{
    lemma_apply_upto_frame(s, ts, n, sp, cm, o, sz);
    if n > 0 {
        let m = (n - 1) as nat;
        lemma_apply_distinct(s, ts, m, sp, cm, o, sz);
        let p = apply_upto(s, ts, m, sp, cm, o);
        let r = apply_upto(s, ts, n, sp, cm, o);
        let t = ts[m as int];
        assert(t.0 < sz && t.1 < sz);
        assert(r == apply_one(p, t, m, sp, cm, o));
        assert(!ts.take(m as int).contains(t)) by {
            if ts.take(m as int).contains(t) {
                let a = choose|a: int| 0 <= a < m && ts.take(m as int)[a] == t;
                assert(ts[a] == ts[m as int]);
            }
        }
        assert(p.0[t.0 as int][t.1 as int] == s.0[t.0 as int][t.1 as int]);
        assert forall|k: int| 0 <= k < n implies #[trigger] r.0[ts[k].0 as int][ts[k].1 as int]
            == target_cell(s.0[ts[k].0 as int][ts[k].1 as int], k, sp, cm, o) by {
            let q = ts[k];
            assert(q.0 < sz && q.1 < sz);
            if k < m {
                assert(q != t);
                assert(p.0[q.0 as int][q.1 as int] == target_cell(s.0[q.0 as int][q.1 as int], k, sp, cm, o));
            }
        }
        assert forall|i: int, j: int| 0 <= i < sz && 0 <= j < sz && !ts.take(n as int).contains((i as usize, j as usize))
            implies #[trigger] r.0[i][j] == s.0[i][j] by {
            assert(ts.take(n as int)[m as int] == t);
            if ts.take(m as int).contains((i as usize, j as usize)) {
                let a = choose|a: int| 0 <= a < m && ts.take(m as int)[a] == (i as usize, j as usize);
                assert(ts.take(n as int)[a] == (i as usize, j as usize));
            }
            assert((i as usize, j as usize) != t);
        }
    }
}

proof fn lemma_run_first(init: ChainState, sz: usize, bm: BorderMode, cm: CapMode, ds: Seq<(nat, nat, nat)>)
    requires
        ds.len() > 0,
        run(init, sz, bm, cm, ds) is Some,
    ensures
        step(init, sz, bm, cm, ds[0]) is Some,
        run(step(init, sz, bm, cm, ds[0]).unwrap(), sz, bm, cm, ds.drop_first()) == run(init, sz, bm, cm, ds),
{
    let d = ds[0];
    let rest = ds.drop_first();
    assert(ds =~= seq![d] + rest);
    lemma_run_split(init, sz, bm, cm, seq![d], rest);
    let e = Seq::<(nat, nat, nat)>::empty();
    assert(seq![d].drop_last() =~= e);
    assert(run(init, sz, bm, cm, e) == Some(init));
    assert(run(init, sz, bm, cm, seq![d]) == step(init, sz, bm, cm, d));
}

/// The four neighbours of `(x, y)` on `b` are those of `b0` fed by an explosion of a
/// square of `o` whose special target is the `s`-th.
pub open spec fn neighbours_fed(b0: Seq<Seq<Cell>>, b: Seq<Seq<Cell>>, sz: usize, x: usize, y: usize, s: nat, cm: CapMode, o: usize) -> bool {
    let nb = sp_nbrs(x, y, sz);
    forall|k: int| 0 <= k < 4 ==>
        #[trigger] b[nb[k].0 as int][nb[k].1 as int] == target_cell(b0[nb[k].0 as int][nb[k].1 as int], k, Some(s), cm, o)
}

/// A click on an own inner square one piece below its threshold, under cap 3 or
/// cap 5, that sets off that one explosion only: the square is emptied; of its four
/// neighbours one, drawn, is special: under cap 3 it keeps its state, under cap 5 it
/// takes the clicker's colour with two more pieces; the other three take the
/// clicker's colour with one more piece each; every other square keeps its state.
pub proof fn lemma_single_explosion(
    b0: Seq<Seq<Cell>>,
    b: Seq<Seq<Cell>>,
    sz: usize,
    x: usize,
    y: usize,
    player: usize,
    bm: BorderMode,
    cm: CapMode,
    collect: bool,
    elim: Seq<usize>,
    chain_count: u32,
    killed: Seq<(usize, usize)>,
    steps: Seq<Seq<Seq<Cell>>>,
    exploded: Seq<(usize, usize)>,
)
    requires
        click_ok(b0, sz, x, y, player),
        click_result(b0, b, sz, x, y, player, bm, cm, collect, elim, chain_count, killed, steps, exploded),
        cm == CapMode::Cap3 || cm == CapMode::Cap5,
        0 < x && x + 1 < sz,
        0 < y && y + 1 < sz,
        b0[x as int][y as int].owner == Some(player),
        b0[x as int][y as int].count + 1 == (if cm == CapMode::Cap3 { 3int } else { 5int }),
        chain_count == 1,
    ensures
        b[x as int][y as int] == (Cell { owner: None, count: 0, th: b0[x as int][y as int].th }),
        exists|s: nat| s < 4 && #[trigger] neighbours_fed(b0, b, sz, x, y, s, cm, player),
        forall|i: int, j: int| 0 <= i < sz && 0 <= j < sz && !(i == x && j == y) && !sp_nbrs(x, y, sz).contains((i as usize, j as usize))
            ==> #[trigger] b[i][j] == b0[i][j],
{
    let (d0, ds, fin) = choose|d0: nat, ds: Seq<(nat, nat, nat)>, fin: ChainState| {
        &&& #[trigger] chain_outcome(b0, sz, x, y, player, bm, cm, d0, ds, fin)
        &&& b == fin.board
        &&& chain_count == fin.count
        &&& is_elim_list(b0, fin.board, elim)
        &&& killed == killed_list(elim, fin.killers)
        &&& if collect {
            steps == fin.steps && exploded == fin.exploded
        } else {
            steps.len() == 0 && exploded.len() == 0
        }
    };
    let b1 = place(b0, sz, x, y, player, bm, cm, d0).unwrap();
    let init = chain_start(b0, b1, x, y, player);
    assert(!is_first_move(b0, x, y, player));
    assert(init.queue == seq![(x, y)]);
    if ds.len() == 0 {
        assert(run(init, sz, bm, cm, ds) == Some(init));
        assert(false);
    }
    let d = ds[0];
    let rest = ds.drop_first();
    lemma_run_first(init, sz, bm, cm, ds);
    let s1 = step(init, sz, bm, cm, d).unwrap();
    let eb = eff_border(bm, d.0).unwrap();
    let ts = sp_targets(x, y, sz, eb);
    let nb = sp_nbrs(x, y, sz);
    assert(ts =~= nb);
    assert(sp_extra(x, y, sz, eb) =~= Seq::<(usize, usize)>::empty());
    let c = b1[x as int][y as int];
    assert(c.count as u32 >= drawn_threshold(x, y, sz, eb, cm, d.1).unwrap());
    let sp = sp_special(cm, ts.len(), d.2).unwrap();
    assert(sp == Some(d.2) && d.2 < 4);
    let bb = upd(b1, x as int, y as int, Cell { owner: None, count: 0, th: c.th });
    let s0 = (bb, init.queue.drop_first(), init.killers);
    crate::chain::lemma_targets_in(x, y, sz, eb);
    assert forall|a: int, e: int| 0 <= a < e < ts.len() implies ts[a] != ts[e] by {}
    lemma_apply_distinct(s0, ts, ts.len(), sp, cm, player, sz);
    let a = apply_upto(s0, ts, ts.len(), sp, cm, player);
    assert(s1.board == a.0);
    assert(s1.count == 1);
    lemma_run_quiet(s1, sz, bm, cm, rest);
    assert(fin.board == s1.board);
    assert(ts.take(4) =~= ts);
    assert(!ts.contains((x, y)));
    assert forall|k: int| 0 <= k < 4 implies
        #[trigger] b[nb[k].0 as int][nb[k].1 as int] == target_cell(b0[nb[k].0 as int][nb[k].1 as int], k, Some(d.2), cm, player) by {
        assert(nb[k] != (x, y));
        assert(bb[nb[k].0 as int][nb[k].1 as int] == b0[nb[k].0 as int][nb[k].1 as int]);
    }
    assert forall|i: int, j: int| 0 <= i < sz && 0 <= j < sz && !(i == x && j == y) && !nb.contains((i as usize, j as usize))
        implies #[trigger] b[i][j] == b0[i][j] by {
        assert(bb[i][j] == b0[i][j]);
    }
    assert(b[x as int][y as int] == bb[x as int][y as int]);
    assert(neighbours_fed(b0, b, sz, x, y, d.2, cm, player));
}

/// Under the degrade border with cap 4, a click on an own square that holds one piece
/// fewer than the square has neighbours on the board sets off an explosion; one that
/// holds fewer still only adds the piece.
pub proof fn lemma_degrade_click(
    b0: Seq<Seq<Cell>>,
    b: Seq<Seq<Cell>>,
    sz: usize,
    x: usize,
    y: usize,
    player: usize,
    collect: bool,
    elim: Seq<usize>,
    chain_count: u32,
    killed: Seq<(usize, usize)>,
    steps: Seq<Seq<Seq<Cell>>>,
    exploded: Seq<(usize, usize)>,
)
    requires
        sz >= 2,
        wf(b0, sz as int),
        x < sz,
        y < sz,
        b0[x as int][y as int].owner == Some(player),
        b0[x as int][y as int].count < 255,
        click_result(b0, b, sz, x, y, player, BorderMode::Degrade, CapMode::Cap4, collect, elim, chain_count, killed, steps, exploded),
    ensures
        b0[x as int][y as int].count + 1 >= sp_nbrs(x, y, sz).len() ==> chain_count >= 1,
        b0[x as int][y as int].count + 1 < sp_nbrs(x, y, sz).len() ==> chain_count == 0
            && b[x as int][y as int].count == b0[x as int][y as int].count + 1,
{
    crate::board::lemma_degrade_threshold_is_neighbours(x, y, sz);
    lemma_click_threshold(b0, b, sz, x, y, player, BorderMode::Degrade, CapMode::Cap4, collect, elim, chain_count, killed, steps, exploded);
}

} // verus!
