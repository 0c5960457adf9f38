use crate::board::{
    all_in, bview, cell_threshold, has_pieces, nbrs, nbrs_wrap, owns_any, set_cell, sp_cell_threshold, sp_nbrs,
    sp_nbrs_wrap, upd, wf, BorderMode, CapMode, Cell,
};
use crate::rng::{rng_below_u32, rng_below_usize, rng_from_entropy, rng_from_seed, seeded_u32, seeded_usize, DrawSource};
use std::collections::HashMap;
use std::collections::VecDeque;
use vstd::prelude::*;

verus! {

broadcast use vstd::std_specs::hash::group_hash_axioms;

/// Upper bound on the explosions of one chain; it stops a board whose squares feed
/// each other forever.
pub const MAX_CHAIN_STEPS: u32 = 100000;

/// The state of a chain reaction between two explosions.
pub struct ChainState {
    pub board: Seq<Seq<Cell>>,
    /// Squares still to be examined, front first.
    pub queue: Seq<(usize, usize)>,
    /// Explosions so far.
    pub count: nat,
    /// For each player, the last player who took over one of its squares.
    pub killers: Map<usize, usize>,
    /// The board after each explosion.
    pub steps: Seq<Seq<Seq<Cell>>>,
    /// The square of each explosion.
    pub exploded: Seq<(usize, usize)>,
}

/// `c + k`, held at 255.
pub open spec fn sat_add(c: u8, k: u8) -> u8 {
    if c + k > 255 { 255 } else { (c + k) as u8 }
}

/// The border behaviour of one explosion; under the random mode it comes from a
/// draw in `0..4`.
pub open spec fn eff_border(bm: BorderMode, d: nat) -> Option<BorderMode> {
    match bm {
        BorderMode::Random => if d == 0 {
            Some(BorderMode::Default)
        } else if d == 1 {
            Some(BorderMode::Wrap)
        } else if d == 2 {
            Some(BorderMode::Bounce)
        } else if d == 3 {
            Some(BorderMode::Degrade)
        } else {
            None
        },
        _ => Some(bm),
    }
}

/// The threshold used when a square is examined; under the random cap mode it is
/// `3 + d` for a draw `d` in `0..3`.
pub open spec fn drawn_threshold(x: usize, y: usize, sz: usize, bm: BorderMode, cm: CapMode, d: nat) -> Option<u32> {
    match cm {
        CapMode::Random => if d < 3 { Some((3 + d) as u32) } else { None },
        _ => Some(sp_cell_threshold(x, y, sz, bm, cm)),
    }
}

/// The squares that receive a piece when `(i, j)` explodes.
pub open spec fn sp_targets(i: usize, j: usize, sz: usize, bm: BorderMode) -> Seq<(usize, usize)> {
    match bm {
        BorderMode::Wrap => sp_nbrs_wrap(i, j, sz),
        _ => sp_nbrs(i, j, sz),
    }
}

/// Under the bounce border, the energy of a direction that leaves the board goes to
/// the opposite neighbour: in the order up, down, left, right of the lost direction.
pub open spec fn bounce_extra(i: usize, j: usize, sz: usize) -> Seq<(usize, usize)> {
    let up_in = i > 0;
    let down_in = i + 1 < sz;
    let left_in = j > 0;
    let right_in = j + 1 < sz;
    let e0 = if !up_in && down_in { seq![((i + 1) as usize, j)] } else { Seq::<(usize, usize)>::empty() };
    let e1 = if !down_in && up_in { e0.push(((i - 1) as usize, j)) } else { e0 };
    let e2 = if !left_in && right_in { e1.push((i, (j + 1) as usize)) } else { e1 };
    if !right_in && left_in { e2.push((i, (j - 1) as usize)) } else { e2 }
}

/// The squares that get a second piece from an explosion at `(i, j)`: under the bounce
/// border, the inner neighbour opposite each edge the square touches.
pub open spec fn sp_extra(i: usize, j: usize, sz: usize, bm: BorderMode) -> Seq<(usize, usize)> {
    match bm {
        BorderMode::Bounce => bounce_extra(i, j, sz),
        _ => Seq::<(usize, usize)>::empty(),
    }
}

/// Under cap 3 and cap 5 one target, drawn in `0..n`, is special: it gets nothing
/// under cap 3 and two pieces under cap 5.
pub open spec fn sp_special(cm: CapMode, n: nat, d: nat) -> Option<Option<nat>> {
    match cm {
        CapMode::Cap3 | CapMode::Cap5 => if n == 0 {
            Some(None)
        } else if d < n {
            Some(Some(d))
        } else {
            None
        },
        _ => Some(None),
    }
}

/// One target of an explosion of a square of `o`.
pub open spec fn apply_one(
    s: (Seq<Seq<Cell>>, Seq<(usize, usize)>, Map<usize, usize>),
    t: (usize, usize),
    k: nat,
    sp: Option<nat>,
    cm: CapMode,
    o: usize,
) -> (Seq<Seq<Cell>>, Seq<(usize, usize)>, Map<usize, usize>) {
    if sp == Some(k) && cm == CapMode::Cap3 {
        s
    } else {
        let inc: u8 = if sp == Some(k) { 2 } else { 1 };
        let c = s.0[t.0 as int][t.1 as int];
        let kl = match c.owner {
            Some(pv) => if pv != o { s.2.insert(pv, o) } else { s.2 },
            None => s.2,
        };
        (upd(s.0, t.0 as int, t.1 as int, Cell { owner: Some(o), count: sat_add(c.count, inc), th: c.th }), s.1.push(t), kl)
    }
}

/// The first `n` targets applied in order.
pub open spec fn apply_upto(
    s: (Seq<Seq<Cell>>, Seq<(usize, usize)>, Map<usize, usize>),
    ts: Seq<(usize, usize)>,
    n: nat,
    sp: Option<nat>,
    cm: CapMode,
    o: usize,
) -> (Seq<Seq<Cell>>, Seq<(usize, usize)>, Map<usize, usize>)
    decreases n,
{
    if n == 0 {
        s
    } else {
        apply_one(apply_upto(s, ts, (n - 1) as nat, sp, cm, o), ts[n - 1], (n - 1) as nat, sp, cm, o)
    }
}

/// `e` is the square of the special target.
pub open spec fn is_special_pos(ts: Seq<(usize, usize)>, sp: Option<nat>, e: (usize, usize)) -> bool {
    match sp {
        Some(s) => s < ts.len() && ts[s as int] == e,
        None => false,
    }
}

/// The first `n` rebound pieces applied in order; the special square gets none.
pub open spec fn extra_upto(
    b: Seq<Seq<Cell>>,
    es: Seq<(usize, usize)>,
    n: nat,
    ts: Seq<(usize, usize)>,
    sp: Option<nat>,
) -> Seq<Seq<Cell>>
    decreases n,
{
    if n == 0 {
        b
    } else {
        let b1 = extra_upto(b, es, (n - 1) as nat, ts, sp);
        let e = es[n - 1];
        if is_special_pos(ts, sp, e) {
            b1
        } else {
            let c = b1[e.0 as int][e.1 as int];
            upd(b1, e.0 as int, e.1 as int, Cell { owner: c.owner, count: sat_add(c.count, 1), th: c.th })
        }
    }
}

/// Examines the front square of the queue with the draws `d`
/// (border, threshold, special); `None` where a draw is out of its range.
pub open spec fn step(st: ChainState, sz: usize, bm: BorderMode, cm: CapMode, d: (nat, nat, nat)) -> Option<ChainState> {
    if st.queue.len() == 0 {
        None
    } else {
        let cx = st.queue[0].0;
        let cy = st.queue[0].1;
        let q1 = st.queue.drop_first();
        match eff_border(bm, d.0) {
            None => None,
            Some(eb) => match drawn_threshold(cx, cy, sz, eb, cm, d.1) {
                None => None,
                Some(th) => {
                    let c = st.board[cx as int][cy as int];
                    if (c.count as u32) >= th {
                        let o = c.owner.unwrap();
                        let b1 = upd(st.board, cx as int, cy as int, Cell { owner: None, count: 0, th: c.th });
                        let ts = sp_targets(cx, cy, sz, eb);
                        let es = sp_extra(cx, cy, sz, eb);
                        match sp_special(cm, ts.len(), d.2) {
                            None => None,
                            Some(sp) => {
                                let r = apply_upto((b1, q1, st.killers), ts, ts.len(), sp, cm, o);
                                let b3 = extra_upto(r.0, es, es.len(), ts, sp);
                                Some(ChainState {
                                    board: b3,
                                    queue: r.1,
                                    count: st.count + 1,
                                    killers: r.2,
                                    steps: st.steps.push(b3),
                                    exploded: st.exploded.push((cx, cy)),
                                })
                            },
                        }
                    } else {
                        Some(ChainState { queue: q1, ..st })
                    }
                },
            },
        }
    }
}

/// The chain after examining one square per draw.
pub open spec fn run(init: ChainState, sz: usize, bm: BorderMode, cm: CapMode, ds: Seq<(nat, nat, nat)>) -> Option<ChainState>
    decreases ds.len(),
{
    if ds.len() == 0 {
        Some(init)
    } else {
        match run(init, sz, bm, cm, ds.drop_last()) {
            Some(s) => step(s, sz, bm, cm, ds.last()),
            None => None,
        }
    }
}

/// A first move: the square is empty and the player has no piece yet.
pub open spec fn is_first_move(b: Seq<Seq<Cell>>, x: usize, y: usize, player: usize) -> bool {
    b[x as int][y as int].owner is None && !owns_any(b, player)
}

/// The square belongs to another player; such a click changes nothing.
pub open spec fn is_opponent(b: Seq<Seq<Cell>>, x: usize, y: usize, player: usize) -> bool {
    b[x as int][y as int].owner is Some && b[x as int][y as int].owner != Some(player)
}

/// The board after placing a piece: a first move starts one below the threshold, a
/// piece on an empty square starts at one, a piece on an own square adds one.
pub open spec fn place(b: Seq<Seq<Cell>>, sz: usize, x: usize, y: usize, player: usize, bm: BorderMode, cm: CapMode, d0: nat) -> Option<Seq<Seq<Cell>>> {
    let c = b[x as int][y as int];
    if c.owner is None {
        match drawn_threshold(x, y, sz, bm, cm, d0) {
            None => None,
            Some(th) => Some(upd(b, x as int, y as int, Cell {
                owner: Some(player),
                count: if is_first_move(b, x, y, player) { (th - 1) as u8 } else { 1 },
                th: c.th,
            })),
        }
    } else {
        Some(upd(b, x as int, y as int, Cell { owner: c.owner, count: (c.count + 1) as u8, th: c.th }))
    }
}

/// The state in which the chain starts: a first move is only placed, any other
/// move puts its square in the queue.
pub open spec fn chain_start(b0: Seq<Seq<Cell>>, b1: Seq<Seq<Cell>>, x: usize, y: usize, player: usize) -> ChainState {
    ChainState {
        board: b1,
        queue: if is_first_move(b0, x, y, player) { Seq::<(usize, usize)>::empty() } else { seq![(x, y)] },
        count: 0,
        killers: Map::<usize, usize>::empty(),
        steps: Seq::<Seq<Seq<Cell>>>::empty(),
        exploded: Seq::<(usize, usize)>::empty(),
    }
}

/// `fin` is where a click of `player` on `(x, y)` ends for the draws `d0` (placement)
/// and `ds` (one per examined square): the queue ran empty, or the step limit was hit.
pub open spec fn chain_outcome(
    b0: Seq<Seq<Cell>>,
    sz: usize,
    x: usize,
    y: usize,
    player: usize,
    bm: BorderMode,
    cm: CapMode,
    d0: nat,
    ds: Seq<(nat, nat, nat)>,
    fin: ChainState,
) -> bool {
    match place(b0, sz, x, y, player, bm, cm, d0) {
        None => false,
        Some(b1) => {
            &&& ds.len() <= MAX_CHAIN_STEPS
            &&& run(chain_start(b0, b1, x, y, player), sz, bm, cm, ds) == Some(fin)
            &&& (fin.queue.len() == 0 || ds.len() == MAX_CHAIN_STEPS)
        },
    }
}

/// A draw in `0..n` of the generator made from `s`, after the ranges `asked`; with
/// the ranges asked after it.
pub open spec fn seeded_draw(s: u64, asked: Seq<(bool, u64)>, n: u32) -> (nat, Seq<(bool, u64)>) {
    (seeded_u32(s, asked, n, usize::BITS) as nat, asked.push((false, n as u64)))
}

/// The draw of the border behaviour (under the random border only).
pub open spec fn border_draw(s: u64, asked: Seq<(bool, u64)>, bm: BorderMode) -> (nat, Seq<(bool, u64)>) {
    if bm is Random { seeded_draw(s, asked, 4) } else { (0, asked) }
}

/// The draw of a threshold (under the random cap only).
pub open spec fn cap_draw(s: u64, asked: Seq<(bool, u64)>, cm: CapMode) -> (nat, Seq<(bool, u64)>) {
    if cm is Random { seeded_draw(s, asked, 3) } else { (0, asked) }
}

/// The draws made when the front square of `st` is examined, in the order they are
/// asked of the generator made from `s`: the border, the threshold, and (for an
/// explosion under cap 3 or cap 5) the special target.
#[verifier::opaque]
pub open spec fn step_draws(
    st: ChainState,
    sz: usize,
    bm: BorderMode,
    cm: CapMode,
    s: u64,
    asked: Seq<(bool, u64)>,
) -> ((nat, nat, nat), Seq<(bool, u64)>) {
    let cx = st.queue[0].0;
    let cy = st.queue[0].1;
    let (da, a1) = border_draw(s, asked, bm);
    let (db, a2) = cap_draw(s, a1, cm);
    match eff_border(bm, da) {
        Some(eb) => {
            let n = sp_targets(cx, cy, sz, eb).len();
            let explodes = match drawn_threshold(cx, cy, sz, eb, cm, db) {
                Some(th) => (st.board[cx as int][cy as int].count as u32) >= th,
                None => false,
            };
            if explodes && (cm is Cap3 || cm is Cap5) && n > 0 {
                ((da, db, seeded_usize(s, a2, n as usize, usize::BITS) as nat), a2.push((true, n as u64)))
            } else {
                ((da, db, 0), a2)
            }
        },
        None => ((da, db, 0), a2),
    }
}

/// The chain from `st` with the draws of the generator made from `s`, examining at
/// most `fuel` more squares.
#[verifier::opaque]
pub open spec fn seeded_run(
    st: ChainState,
    sz: usize,
    bm: BorderMode,
    cm: CapMode,
    s: u64,
    asked: Seq<(bool, u64)>,
    fuel: nat,
) -> ChainState
    decreases fuel,
{
    if fuel == 0 || st.queue.len() == 0 {
        st
    } else {
        let (dd, a2) = step_draws(st, sz, bm, cm, s, asked);
        match step(st, sz, bm, cm, dd) {
            Some(st2) => seeded_run(st2, sz, bm, cm, s, a2, (fuel - 1) as nat),
            None => st,
        }
    }
}

/// The special-target draw of an examination that found threshold `th`: made (and
/// recorded in `a3`) only for an explosion under cap 3 or cap 5 with targets.
pub open spec fn special_draw_ok(
    st: ChainState,
    sz: usize,
    eb: BorderMode,
    cm: CapMode,
    th: u32,
    s: u64,
    a2: Seq<(bool, u64)>,
    d2: nat,
    a3: Seq<(bool, u64)>,
) -> bool {
    let cx = st.queue[0].0;
    let cy = st.queue[0].1;
    let n = sp_targets(cx, cy, sz, eb).len();
    if (st.board[cx as int][cy as int].count as u32) >= th && (cm is Cap3 || cm is Cap5) && n > 0 {
        d2 == seeded_usize(s, a2, n as usize, usize::BITS) as nat && a3 == a2.push((true, n as u64))
    } else {
        d2 == 0 && a3 == a2
    }
}

proof fn lemma_step_draws_eq(
    st: ChainState,
    sz: usize,
    bm: BorderMode,
    cm: CapMode,
    s: u64,
    a0: Seq<(bool, u64)>,
    a1: Seq<(bool, u64)>,
    a2: Seq<(bool, u64)>,
    a3: Seq<(bool, u64)>,
    dd: (nat, nat, nat),
    eb: BorderMode,
    th: u32,
)
    requires
        st.queue.len() > 0,
        (dd.0, a1) == border_draw(s, a0, bm),
        (dd.1, a2) == cap_draw(s, a1, cm),
        eff_border(bm, dd.0) == Some(eb),
        drawn_threshold(st.queue[0].0, st.queue[0].1, sz, eb, cm, dd.1) == Some(th),
        special_draw_ok(st, sz, eb, cm, th, s, a2, dd.2, a3),
    ensures
        step_draws(st, sz, bm, cm, s, a0) == (dd, a3),
{
    reveal(step_draws);
}

proof fn lemma_seeded_advance(
    init: ChainState,
    ds: Seq<(nat, nat, nat)>,
    st: ChainState,
    nst: ChainState,
    sz: usize,
    bm: BorderMode,
    cm: CapMode,
    s: u64,
    a0: Seq<(bool, u64)>,
    a3: Seq<(bool, u64)>,
    dd: (nat, nat, nat),
    fuel: nat,
)
    requires
        fuel > 0,
        st.queue.len() > 0,
        step_draws(st, sz, bm, cm, s, a0) == (dd, a3),
        run(init, sz, bm, cm, ds) == Some(st),
        run(init, sz, bm, cm, ds.push(dd)) == Some(nst),
    ensures
        seeded_run(st, sz, bm, cm, s, a0, fuel) == seeded_run(nst, sz, bm, cm, s, a3, (fuel - 1) as nat),
{
    assert(ds.push(dd).drop_last() =~= ds);
    assert(step(st, sz, bm, cm, dd) == Some(nst));
    reveal(seeded_run);
}

/// Where a click ends when every random event is drawn from the generator made
/// from `s`: the placement draw first, then the draws of each examined square.
#[verifier::opaque]
pub open spec fn seeded_chain(
    b0: Seq<Seq<Cell>>,
    sz: usize,
    x: usize,
    y: usize,
    player: usize,
    bm: BorderMode,
    cm: CapMode,
    s: u64,
) -> ChainState {
    let (d0, a0) = if b0[x as int][y as int].owner is None {
        cap_draw(s, Seq::<(bool, u64)>::empty(), cm)
    } else {
        (0nat, Seq::<(bool, u64)>::empty())
    };
    match place(b0, sz, x, y, player, bm, cm, d0) {
        Some(b1) => seeded_run(chain_start(b0, b1, x, y, player), sz, bm, cm, s, a0, MAX_CHAIN_STEPS as nat),
        None => chain_start(b0, b0, x, y, player),
    }
}

/// The ascending list of the players that owned a square in `before` and own none
/// in `after`.
pub open spec fn elim_of(before: Seq<Seq<Cell>>, after: Seq<Seq<Cell>>) -> Seq<usize> {
    choose|e: Seq<usize>| is_elim_list(before, after, e)
}

/// Everything a click reports when its random events come from the seed `s`: the
/// board after it, the eliminated players, the number of explosions, each eliminated
/// player with its attacker, and (when recorded) the board after each explosion and
/// the square of each explosion.
pub open spec fn seeded_click(
    b0: Seq<Seq<Cell>>,
    sz: usize,
    x: usize,
    y: usize,
    player: usize,
    bm: BorderMode,
    cm: CapMode,
    s: u64,
    collect: bool,
) -> (Seq<Seq<Cell>>, Seq<usize>, u32, Seq<(usize, usize)>, Seq<Seq<Seq<Cell>>>, Seq<(usize, usize)>) {
    if is_opponent(b0, x, y, player) {
        (b0, Seq::empty(), 0, Seq::empty(), Seq::empty(), Seq::empty())
    } else {
        let fin = seeded_chain(b0, sz, x, y, player, bm, cm, s);
        let elim = elim_of(b0, fin.board);
        (
            fin.board,
            elim,
            fin.count as u32,
            killed_list(elim, fin.killers),
            if collect { fin.steps } else { Seq::empty() },
            if collect { fin.exploded } else { Seq::empty() },
        )
    }
}

/// The players that owned a square in `before` and own none in `after`, ascending.
pub open spec fn is_elim_list(before: Seq<Seq<Cell>>, after: Seq<Seq<Cell>>, s: Seq<usize>) -> bool {
    &&& forall|a: int, b: int| 0 <= a < b < s.len() ==> s[a] < s[b]
    &&& forall|p: usize| s.contains(p) <==> (owns_any(before, p) && !owns_any(after, p))
}

/// Two ascending lists of the same players are the same list.
pub proof fn lemma_ascending_unique(a: Seq<usize>, b: Seq<usize>)
    requires
        forall|i: int, j: int| 0 <= i < j < a.len() ==> a[i] < a[j],
        forall|i: int, j: int| 0 <= i < j < b.len() ==> b[i] < b[j],
        forall|p: usize| a.contains(p) <==> b.contains(p),
    ensures
        a == b,
    decreases a.len() + b.len(),
{
    if a.len() == 0 {
        if b.len() > 0 {
            assert(b.contains(b[0]));
        }
        assert(a =~= b);
    } else if b.len() == 0 {
        assert(a.contains(a[0]));
    } else {
        assert(a.contains(a[0]));
        let j = choose|j: int| 0 <= j < b.len() && b[j] == a[0];
        assert(b.contains(b[0]));
        let k = choose|k: int| 0 <= k < a.len() && a[k] == b[0];
        assert(k == 0 || a[0] < a[k]);
        assert(j == 0 || b[0] < b[j]);
        assert(a[0] == b[0]);
        let a1 = a.drop_first();
        let b1 = b.drop_first();
        assert forall|p: usize| a1.contains(p) <==> b1.contains(p) by {
            if a1.contains(p) {
                let i = choose|i: int| 0 <= i < a1.len() && a1[i] == p;
                assert(a[i + 1] == p);
                assert(a.contains(p));
                let m = choose|m: int| 0 <= m < b.len() && b[m] == p;
                assert(m != 0);
                assert(b1[m - 1] == p);
            }
            if b1.contains(p) {
                let i = choose|i: int| 0 <= i < b1.len() && b1[i] == p;
                assert(b[i + 1] == p);
                assert(b.contains(p));
                let m = choose|m: int| 0 <= m < a.len() && a[m] == p;
                assert(m != 0);
                assert(a1[m - 1] == p);
            }
        }
        lemma_ascending_unique(a1, b1);
        assert forall|i: int| 0 <= i < a.len() implies a[i] == b[i] by {
            if i > 0 {
                assert(a[i] == a1[i - 1]);
                assert(b[i] == b1[i - 1]);
            }
        }
        assert(a =~= b);
    }
}

/// The list of eliminated players is the one `elim_of` names.
pub proof fn lemma_elim_of(before: Seq<Seq<Cell>>, after: Seq<Seq<Cell>>, e: Seq<usize>)
    requires
        is_elim_list(before, after, e),
    ensures
        elim_of(before, after) == e,
{
    let c = elim_of(before, after);
    assert(is_elim_list(before, after, c));
    lemma_ascending_unique(c, e);
}

/// Each eliminated player paired with its last attacker, where there was one.
pub open spec fn killed_list(elim: Seq<usize>, kl: Map<usize, usize>) -> Seq<(usize, usize)>
    decreases elim.len(),
{
    if elim.len() == 0 {
        Seq::<(usize, usize)>::empty()
    } else {
        let rest = killed_list(elim.drop_last(), kl);
        if kl.contains_key(elim.last()) { rest.push((elim.last(), kl[elim.last()])) } else { rest }
    }
}

/// The recorded boards, each as a sequence of rows.
pub open spec fn steps_view(v: Seq<Vec<Vec<Cell>>>) -> Seq<Seq<Seq<Cell>>> {
    v.map_values(|b: Vec<Vec<Cell>>| bview(&b))
}

/// Threshold of the square for one examination; draws under the random cap mode.
fn explosion_threshold(
    _cell: &Cell,
    x: usize,
    y: usize,
    sz: usize,
    border_mode: BorderMode,
    cap_mode: CapMode,
    rng: &mut DrawSource,
) -> (r: (u32, Ghost<nat>))
    requires
        sz >= 1,
    ensures
        drawn_threshold(x, y, sz, border_mode, cap_mode, r.1@) == Some(r.0),
        2 <= r.0 <= 5,
        final(rng)@.0 == old(rng)@.0,
        old(rng)@.0 matches Some(s) ==> (r.1@, final(rng)@.1) == cap_draw(s, old(rng)@.1, cap_mode),
{
    match cap_mode {
        CapMode::Cap3 => (3, Ghost(0)),
        CapMode::Cap5 => (5, Ghost(0)),
        CapMode::Random => {
            let d = rng_below_u32(rng, 3);
            (3 + d, Ghost(d as nat))
        },
        CapMode::Cap4 => (cell_threshold(x, y, sz, border_mode, cap_mode), Ghost(0)),
    }
}

/// The targets and the rebound targets of an explosion at `(cx, cy)`.
fn explosion_targets(cx: usize, cy: usize, sz: usize, eff_bm: BorderMode) -> (r: (Vec<(usize, usize)>, Vec<(usize, usize)>))
    requires
        cx < sz,
        cy < sz,
    ensures
        r.0@ == sp_targets(cx, cy, sz, eff_bm),
        r.1@ == sp_extra(cx, cy, sz, eff_bm),
        all_in(r.0@, sz),
        all_in(r.1@, sz),
{
    match eff_bm {
        BorderMode::Wrap => (nbrs_wrap(cx, cy, sz), Vec::new()),
        BorderMode::Bounce => {
            let targets = nbrs(cx, cy, sz);
            let up_in = cx > 0;
            let down_in = cx + 1 < sz;
            let left_in = cy > 0;
            let right_in = cy + 1 < sz;
            let mut extra: Vec<(usize, usize)> = Vec::new();
            if !up_in && down_in {
                extra.push((cx + 1, cy));
            }
            if !down_in && up_in {
                extra.push((cx - 1, cy));
            }
            if !left_in && right_in {
                extra.push((cx, cy + 1));
            }
            if !right_in && left_in {
                extra.push((cx, cy - 1));
            }
            assert(extra@ =~= bounce_extra(cx, cy, sz));
            (targets, extra)
        },
        _ => (nbrs(cx, cy, sz), Vec::new()),
    }
}

/// A copy of the board.
pub fn copy_board(b: &Vec<Vec<Cell>>) -> (r: Vec<Vec<Cell>>)
    ensures
        bview(&r) == bview(b),
{
    let mut r: Vec<Vec<Cell>> = Vec::new();
    let mut i: usize = 0;
    while i < b.len()
        invariant
            0 <= i <= b@.len(),
            r@.len() == i,
            forall|k: int| 0 <= k < i ==> (#[trigger] r@[k])@ == b@[k]@,
        decreases b@.len() - i,
    {
        let row = &b[i];
        let mut nr: Vec<Cell> = Vec::new();
        let mut j: usize = 0;
        while j < row.len()
            invariant
                0 <= j <= row@.len(),
                nr@ == row@.take(j as int),
            decreases row@.len() - j,
        {
            nr.push(row[j]);
            assert(nr@ =~= row@.take(j + 1));
            j += 1;
        }
        assert(nr@ =~= row@);
        r.push(nr);
        i += 1;
    }
    assert(bview(&r) =~= bview(b));
    r
}


/// An optional index as a natural number.
pub open spec fn opt_nat(o: Option<usize>) -> Option<nat> {
    match o {
        Some(s) => Some(s as nat),
        None => None,
    }
}

/// Gives each target of an explosion of a square of `owner` its piece.
fn apply_targets(
    board: &mut Vec<Vec<Cell>>,
    chain: &mut VecDeque<(usize, usize)>,
    last_killer: &mut HashMap<usize, usize>,
    targets: &Vec<(usize, usize)>,
    special: Option<usize>,
    cap_mode: CapMode,
    owner: usize,
    Ghost(sz): Ghost<usize>,
)
    requires
        wf(bview(old(board)), sz as int),
        all_in(targets@, sz),
    ensures
        (bview(final(board)), final(chain)@, final(last_killer)@) == apply_upto(
            (bview(old(board)), old(chain)@, old(last_killer)@),
            targets@,
            targets@.len(),
            opt_nat(special),
            cap_mode,
            owner,
        ),
        wf(bview(final(board)), sz as int),
        forall|k: int| 0 <= k < targets@.len() && !(special == Some(k as usize) && cap_mode == CapMode::Cap3)
            ==> bview(final(board))[(#[trigger] targets@[k]).0 as int][targets@[k].1 as int].owner == Some(owner),
        forall|i: int, j: int| 0 <= i < sz && 0 <= j < sz ==>
            (#[trigger] bview(final(board))[i][j] == bview(old(board))[i][j]
                || bview(final(board))[i][j].owner == Some(owner)),
        final(chain)@.len() >= old(chain)@.len(),
        forall|k: int| 0 <= k < old(chain)@.len() ==> #[trigger] final(chain)@[k] == old(chain)@[k],
        forall|k: int| old(chain)@.len() <= k < final(chain)@.len() ==> targets@.contains(#[trigger] final(chain)@[k])
            && bview(final(board))[final(chain)@[k].0 as int][final(chain)@[k].1 as int].owner == Some(owner),
{
    let ghost s0 = (bview(board), chain@, last_killer@);
    let ghost b0 = bview(board);
    let ghost q0 = chain@;
    let ghost sp = opt_nat(special);
    let mut ti: usize = 0;
    while ti < targets.len()
        invariant
            0 <= ti <= targets@.len(),
            all_in(targets@, sz),
            wf(bview(board), sz as int),
            (bview(board), chain@, last_killer@) == apply_upto(s0, targets@, ti as nat, sp, cap_mode, owner),
            sp == opt_nat(special),
            forall|k: int| 0 <= k < ti && !(special == Some(k as usize) && cap_mode == CapMode::Cap3)
                ==> bview(board)[(#[trigger] targets@[k]).0 as int][targets@[k].1 as int].owner == Some(owner),
            forall|i: int, j: int| 0 <= i < sz && 0 <= j < sz ==>
                (#[trigger] bview(board)[i][j] == b0[i][j] || bview(board)[i][j].owner == Some(owner)),
            chain@.len() >= q0.len(),
            forall|k: int| 0 <= k < q0.len() ==> #[trigger] chain@[k] == q0[k],
            forall|k: int| q0.len() <= k < chain@.len() ==> targets@.contains(#[trigger] chain@[k])
                && bview(board)[chain@[k].0 as int][chain@[k].1 as int].owner == Some(owner),
        decreases targets@.len() - ti,
    {
        let t = targets[ti];
        let nx = t.0;
        let ny = t.1;
        assert(all_in(targets@, sz) ==> targets@[ti as int].0 < sz && targets@[ti as int].1 < sz);
        let is_sp = match special {
            Some(s) => s == ti,
            None => false,
        };
        let ghost prev_b = bview(board);
        let ghost prev_q = chain@;
        if is_sp && cap_mode == CapMode::Cap3 {
        } else {
            let inc: u8 = if is_sp { 2 } else { 1 };
            assert(bview(board)[nx as int] == board@[nx as int]@);
            let c = board[nx][ny];
            match c.owner {
                Some(pv) => {
                    if pv != owner {
                        last_killer.insert(pv, owner);
                    }
                },
                None => {},
            }
            set_cell(board, nx, ny, Cell { owner: Some(owner), count: c.count.saturating_add(inc), th: c.th });
            chain.push_back((nx, ny));
            assert(targets@.contains(targets@[ti as int]));
            assert forall|k: int| q0.len() <= k < chain@.len() implies targets@.contains(#[trigger] chain@[k])
                && bview(board)[chain@[k].0 as int][chain@[k].1 as int].owner == Some(owner) by {
                if k < prev_q.len() {
                    assert(chain@[k] == prev_q[k]);
                }
            }
        }
        proof {
            assert(apply_upto(s0, targets@, (ti + 1) as nat, sp, cap_mode, owner)
                == apply_one(apply_upto(s0, targets@, ti as nat, sp, cap_mode, owner), targets@[ti as int], ti as nat, sp, cap_mode, owner));
        }
        ti += 1;
    }
}

/// Gives each rebound target one more piece, the special square excepted.
fn apply_bounce_extra(
    board: &mut Vec<Vec<Cell>>,
    extra: &Vec<(usize, usize)>,
    targets: &Vec<(usize, usize)>,
    special: Option<usize>,
    Ghost(sz): Ghost<usize>,
)
    requires
        wf(bview(old(board)), sz as int),
        all_in(extra@, sz),
        forall|k: int| 0 <= k < extra@.len() && !is_special_pos(targets@, opt_nat(special), #[trigger] extra@[k])
            ==> bview(old(board))[extra@[k].0 as int][extra@[k].1 as int].owner is Some,
    ensures
        bview(final(board)) == extra_upto(bview(old(board)), extra@, extra@.len(), targets@, opt_nat(special)),
        wf(bview(final(board)), sz as int),
        forall|i: int, j: int| 0 <= i < sz && 0 <= j < sz ==>
            (#[trigger] bview(final(board))[i][j]).owner == bview(old(board))[i][j].owner
                && (bview(old(board))[i][j].owner is None ==> bview(final(board))[i][j] == bview(old(board))[i][j]),
{
    let ghost b0 = bview(board);
    let ghost sp = opt_nat(special);
    let mut k: usize = 0;
    while k < extra.len()
        invariant
            0 <= k <= extra@.len(),
            all_in(extra@, sz),
            wf(bview(board), sz as int),
            sp == opt_nat(special),
            bview(board) == extra_upto(b0, extra@, k as nat, targets@, sp),
            forall|q: int| 0 <= q < extra@.len() && !is_special_pos(targets@, sp, #[trigger] extra@[q])
                ==> b0[extra@[q].0 as int][extra@[q].1 as int].owner is Some,
            forall|i: int, j: int| 0 <= i < sz && 0 <= j < sz ==>
                (#[trigger] bview(board)[i][j]).owner == b0[i][j].owner
                    && (b0[i][j].owner is None ==> bview(board)[i][j] == b0[i][j]),
        decreases extra@.len() - k,
    {
        let e = extra[k];
        assert(all_in(extra@, sz) ==> extra@[k as int].0 < sz && extra@[k as int].1 < sz);
        let is_special = match special {
            Some(s) => s < targets.len() && targets[s].0 == e.0 && targets[s].1 == e.1,
            None => false,
        };
        assert(is_special == is_special_pos(targets@, sp, e));
        if !is_special {
            assert(bview(board)[e.0 as int] == board@[e.0 as int]@);
            let c = board[e.0][e.1];
            set_cell(board, e.0, e.1, Cell { owner: c.owner, count: c.count.saturating_add(1), th: c.th });
        }
        k += 1;
    }
}


/// Every rebound target is also a target.
proof fn lemma_extra_in_targets(i: usize, j: usize, sz: usize, bm: BorderMode)
    requires
        i < sz,
        j < sz,
    ensures
        forall|k: int| 0 <= k < sp_extra(i, j, sz, bm).len() ==> sp_targets(i, j, sz, bm).contains(#[trigger] sp_extra(i, j, sz, bm)[k]),
{
    if bm == BorderMode::Bounce {
        let ts = sp_nbrs(i, j, sz);
        let es = bounce_extra(i, j, sz);
        assert forall|k: int| 0 <= k < es.len() implies ts.contains(#[trigger] es[k]) by {
            let e = es[k];
            if i > 0 && i + 1 >= sz {
                assert(ts[0] == ((i - 1) as usize, j));
            }
            if i + 1 < sz && i == 0 {
                assert(ts[0] == ((i + 1) as usize, j));
            }
            if j > 0 && j + 1 >= sz {
                let t = ts.len() - 1;
                assert(ts[t] == (i, (j - 1) as usize));
            }
            if j + 1 < sz && j == 0 {
                let t = ts.len() - 1;
                assert(ts[t] == (i, (j + 1) as usize));
            }
        }
    }
}

/// Strictly increasing.
pub open spec fn ascending(s: Seq<usize>) -> bool {
    forall|a: int, b: int| 0 <= a < b < s.len() ==> s[a] < s[b]
}

/// Inserts `x` into an ascending list unless it is there.
#[verifier::spinoff_prover]
fn sorted_insert(v: &mut Vec<usize>, x: usize)
    requires
        ascending(old(v)@),
    ensures
        ascending(final(v)@),
        forall|p: usize| final(v)@.contains(p) <==> (old(v)@.contains(p) || p == x),
{
    let mut pos: usize = 0;
    while pos < v.len() && v[pos] < x
        invariant
            0 <= pos <= v@.len(),
            v@ == old(v)@,
            forall|k: int| 0 <= k < pos ==> v@[k] < x,
        decreases v@.len() - pos,
    {
        pos += 1;
    }
    if pos < v.len() && v[pos] == x {
        assert(v@[pos as int] == x);
        assert(v@.contains(x));
        return;
    }
    let ghost old_v = v@;
    v.insert(pos, x);
    assert(v@ =~= old_v.take(pos as int).push(x) + old_v.skip(pos as int));
    assert forall|p: usize| v@.contains(p) <==> (old_v.contains(p) || p == x) by {
        if old_v.contains(p) {
            let t = choose|t: int| 0 <= t < old_v.len() && old_v[t] == p;
            if t < pos {
                assert(v@[t] == p);
            } else {
                assert(v@[t + 1] == p);
            }
        }
        if p == x {
            assert(v@[pos as int] == p);
        }
        if v@.contains(p) {
            let t = choose|t: int| 0 <= t < v@.len() && v@[t] == p;
            if t < pos {
                assert(old_v[t] == p);
            } else if t > pos {
                assert(old_v[t - 1] == p);
            }
        }
    }
    assert(old_v == old(v)@);
    assert(forall|p: usize| v@.contains(p) <==> (old(v)@.contains(p) || p == x));
    assert(ascending(v@));
}

/// The players owning a square, ascending.
fn owners_sorted(board: &Vec<Vec<Cell>>) -> (r: Vec<usize>)
    ensures
        ascending(r@),
        forall|p: usize| r@.contains(p) <==> owns_any(bview(board), p),
{
    let ghost b = bview(board);
    let mut r: Vec<usize> = Vec::new();
    let mut i: usize = 0;
    while i < board.len()
        invariant
            b == bview(board),
            0 <= i <= board@.len(),
            ascending(r@),
            forall|p: usize| r@.contains(p) <==> exists|a: int, c: int|
                0 <= a < i && 0 <= c < b[a].len() && #[trigger] b[a][c].owner == Some(p),
        decreases board@.len() - i,
    {
        let row = &board[i];
        assert(row@ == b[i as int]);
        let mut j: usize = 0;
        while j < row.len()
            invariant
                b == bview(board),
                0 <= i < board@.len(),
                row@ == b[i as int],
                0 <= j <= row@.len(),
                ascending(r@),
                forall|p: usize| r@.contains(p) <==> (exists|a: int, c: int|
                    0 <= a < i && 0 <= c < b[a].len() && #[trigger] b[a][c].owner == Some(p))
                    || exists|c: int| 0 <= c < j && #[trigger] b[i as int][c].owner == Some(p),
            decreases row@.len() - j,
        {
            match row[j].owner {
                Some(o) => {
                    sorted_insert(&mut r, o);
                },
                None => {},
            }
            j += 1;
        }
        i += 1;
    }
    r
}

/// The players owning at least one square.
pub open spec fn owner_set(b: Seq<Seq<Cell>>) -> Set<usize> {
    Set::new(|p: usize| owns_any(b, p))
}

/// The number of players on the board, at least two.
pub fn max_players_for(board: &Vec<Vec<Cell>>) -> (r: usize)
    ensures
        owner_set(bview(board)).finite(),
        r == if owner_set(bview(board)).len() >= 2 { owner_set(bview(board)).len() } else { 2 },
{
    let owners = owners_sorted(board);
    proof {
        assert(owners@.no_duplicates()) by {
            assert forall|i: int, j: int| 0 <= i < owners@.len() && 0 <= j < owners@.len() && i != j implies owners@[i] != owners@[j] by {
                if i < j {
                    assert(owners@[i] < owners@[j]);
                } else {
                    assert(owners@[j] < owners@[i]);
                }
            }
        }
        owners@.unique_seq_to_set();
        assert(owners@.to_set() =~= owner_set(bview(board)));
    }
    if owners.len() >= 2 { owners.len() } else { 2 }
}

/// The players that owned a square in `before` and own none on `board`, ascending.
fn eliminated_players(before: &Vec<Vec<Cell>>, board: &Vec<Vec<Cell>>) -> (r: Vec<usize>)
    ensures
        is_elim_list(bview(before), bview(board), r@),
{
    let owners = owners_sorted(before);
    let mut r: Vec<usize> = Vec::new();
    let mut k: usize = 0;
    while k < owners.len()
        invariant
            0 <= k <= owners@.len(),
            ascending(owners@),
            forall|p: usize| owners@.contains(p) <==> owns_any(bview(before), p),
            forall|a: int| 0 <= a < r@.len() ==> exists|t: int| 0 <= t < k && owners@[t] == #[trigger] r@[a],
            ascending(r@),
            forall|p: usize| r@.contains(p) <==> exists|t: int| 0 <= t < k && #[trigger] owners@[t] == p
                && !owns_any(bview(board), p),
        decreases owners@.len() - k,
    {
        let p = owners[k];
        if !has_pieces(board, p) {
            let ghost old_r = r@;
            proof {
                assert forall|a: int| 0 <= a < old_r.len() implies old_r[a] < p by {
                    let t = choose|t: int| 0 <= t < k && owners@[t] == old_r[a];
                }
            }
            r.push(p);
            assert forall|p2: usize| r@.contains(p2) <==> exists|t: int| 0 <= t < k + 1 && #[trigger] owners@[t] == p2
                && !owns_any(bview(board), p2) by {
                if r@.contains(p2) {
                    let a = choose|a: int| 0 <= a < r@.len() && r@[a] == p2;
                    if a < old_r.len() {
                        assert(old_r.contains(p2));
                    }
                }
                if exists|t: int| 0 <= t < k + 1 && #[trigger] owners@[t] == p2 && !owns_any(bview(board), p2) {
                    let t = choose|t: int| 0 <= t < k + 1 && #[trigger] owners@[t] == p2 && !owns_any(bview(board), p2);
                    if t < k {
                        assert(old_r.contains(p2));
                        let a = choose|a: int| 0 <= a < old_r.len() && old_r[a] == p2;
                        assert(r@[a] == p2);
                    } else {
                        assert(r@[old_r.len() as int] == p2);
                    }
                }
            }
        }
        k += 1;
    }
    assert forall|p: usize| r@.contains(p) <==> (owns_any(bview(before), p) && !owns_any(bview(board), p)) by {
        if owns_any(bview(before), p) && !owns_any(bview(board), p) {
            assert(owners@.contains(p));
            let t = choose|t: int| 0 <= t < owners@.len() && owners@[t] == p;
        }
    }
    r
}

/// Pairs each eliminated player with its last attacker, where there was one.
fn killers_of(elim: &Vec<usize>, last_killer: &HashMap<usize, usize>) -> (r: Vec<(usize, usize)>)
    ensures
        r@ == killed_list(elim@, last_killer@),
{
    let mut r: Vec<(usize, usize)> = Vec::new();
    let mut k: usize = 0;
    while k < elim.len()
        invariant
            0 <= k <= elim@.len(),
            r@ == killed_list(elim@.take(k as int), last_killer@),
        decreases elim@.len() - k,
    {
        let v = elim[k];
        assert(elim@.take(k + 1).drop_last() =~= elim@.take(k as int));
        match last_killer.get(&v) {
            Some(killer) => {
                r.push((v, *killer));
            },
            None => {},
        }
        k += 1;
    }
    assert(elim@.take(elim@.len() as int) =~= elim@);
    r
}


/// The chain squares all lie on the board, and none of them is an empty square
/// holding pieces.
pub open spec fn queue_ok(b: Seq<Seq<Cell>>, q: Seq<(usize, usize)>, sz: usize) -> bool {
    &&& all_in(q, sz)
    &&& forall|k: int| 0 <= k < q.len() ==> (#[trigger] b[q[k].0 as int][q[k].1 as int]).owner is Some
        || b[q[k].0 as int][q[k].1 as int].count == 0
}

/// What a click returns, and the board it leaves, as the chain specification says.
pub open spec fn click_result(
    b0: Seq<Seq<Cell>>,
    b: Seq<Seq<Cell>>,
    sz: usize,
    x: usize,
    y: usize,
    player: usize,
    bm: BorderMode,
    cm: CapMode,
    collect: bool,
    elim: Seq<usize>,
    chain_count: u32,
    killed: Seq<(usize, usize)>,
    steps: Seq<Seq<Seq<Cell>>>,
    exploded: Seq<(usize, usize)>,
) -> bool {
    if is_opponent(b0, x, y, player) {
        &&& b == b0
        &&& elim.len() == 0
        &&& chain_count == 0
        &&& killed.len() == 0
        &&& steps.len() == 0
        &&& exploded.len() == 0
    } else {
        exists|d0: nat, ds: Seq<(nat, nat, nat)>, fin: ChainState| {
            &&& #[trigger] chain_outcome(b0, sz, x, y, player, bm, cm, d0, ds, fin)
            &&& b == fin.board
            &&& chain_count == fin.count
            &&& is_elim_list(b0, fin.board, elim)
            &&& killed == killed_list(elim, fin.killers)
            &&& if collect {
                steps == fin.steps && exploded == fin.exploded
            } else {
                steps.len() == 0 && exploded.len() == 0
            }
        }
    }
}

/// The preconditions of a click: a square board, a square on it, and room for one
/// more piece on an own square.
pub open spec fn click_ok(b: Seq<Seq<Cell>>, sz: usize, x: usize, y: usize, player: usize) -> bool {
    &&& wf(b, sz as int)
    &&& x < sz
    &&& y < sz
    &&& b[x as int][y as int].owner == Some(player) ==> b[x as int][y as int].count < 255
}

/// Places the piece, runs the chain reaction and records what the callers report.
#[verifier::rlimit(40)]
fn process_click_with_killer_inner(
    board: &mut Vec<Vec<Cell>>,
    sz: usize,
    x: usize,
    y: usize,
    player: usize,
    _max_players: usize,
    border_mode: BorderMode,
    cap_mode: CapMode,
    seed: Option<u64>,
    collect: bool,
) -> (r: (Vec<usize>, u32, Vec<(usize, usize)>, Vec<Vec<Vec<Cell>>>, Vec<(usize, usize)>))
    requires
        click_ok(bview(old(board)), sz, x, y, player),
    ensures
        wf(bview(final(board)), sz as int),
        click_result(
            bview(old(board)),
            bview(final(board)),
            sz,
            x,
            y,
            player,
            border_mode,
            cap_mode,
            collect,
            r.0@,
            r.1,
            r.2@,
            steps_view(r.3@),
            r.4@,
        ),
        seed matches Some(s) ==> (bview(final(board)), r.0@, r.1, r.2@, steps_view(r.3@), r.4@) == seeded_click(
            bview(old(board)),
            sz,
            x,
            y,
            player,
            border_mode,
            cap_mode,
            s,
            collect,
        ),
{
    let ghost b0 = bview(board);
    let before = copy_board(board);
    let mut steps: Vec<Vec<Vec<Cell>>> = Vec::new();
    let mut exploded: Vec<(usize, usize)> = Vec::new();
    assert(bview(board)[x as int] == board@[x as int]@);
    let is_first = board[x][y].owner.is_none() && !has_pieces(board, player);
    let mut rng = match seed {
        Some(se) => rng_from_seed(se),
        None => rng_from_entropy(),
    };
    assert(rng@.0 == seed && rng@.1 == Seq::<(bool, u64)>::empty());
    let cell = board[x][y];
    let ghost mut d0: nat = 0;
    if cell.owner.is_none() {
        let (th, Ghost(d)) = explosion_threshold(&cell, x, y, sz, border_mode, cap_mode, &mut rng);
        proof {
            d0 = d;
        }
        let count: u8 = if is_first { (th - 1) as u8 } else { 1 };
        set_cell(board, x, y, Cell { owner: Some(player), count, th: cell.th });
    } else if cell.owner == Some(player) {
        set_cell(board, x, y, Cell { owner: cell.owner, count: cell.count + 1, th: cell.th });
    } else {
        return (Vec::new(), 0, Vec::new(), steps, exploded);
    }
    assert(place(b0, sz, x, y, player, border_mode, cap_mode, d0) == Some(bview(board)));
    let mut chain: VecDeque<(usize, usize)> = VecDeque::new();
    let mut last_killer: HashMap<usize, usize> = HashMap::new();
    if !is_first {
        chain.push_back((x, y));
    }
    let ghost init = chain_start(b0, bview(board), x, y, player);
    assert(chain@ =~= init.queue);
    let mut chain_count: u32 = 0;
    let mut chain_steps: u32 = 0;
    let ghost mut ds: Seq<(nat, nat, nat)> = Seq::empty();
    let ghost mut gsteps: Seq<Seq<Seq<Cell>>> = Seq::empty();
    let ghost mut gexp: Seq<(usize, usize)> = Seq::empty();
    assert(run(init, sz, border_mode, cap_mode, ds) == Some(init));
    proof {
        if let Some(s) = seed {
            reveal(seeded_chain);
            assert(seeded_chain(b0, sz, x, y, player, border_mode, cap_mode, s)
                == seeded_run(init, sz, border_mode, cap_mode, s, rng@.1, MAX_CHAIN_STEPS as nat));
        }
    }
    while chain.len() > 0 && chain_steps < MAX_CHAIN_STEPS
        invariant
            rng@.0 == seed,
            seed matches Some(s) ==> seeded_chain(b0, sz, x, y, player, border_mode, cap_mode, s) == seeded_run(
                ChainState {
                    board: bview(board),
                    queue: chain@,
                    count: chain_count as nat,
                    killers: last_killer@,
                    steps: gsteps,
                    exploded: gexp,
                },
                sz,
                border_mode,
                cap_mode,
                s,
                rng@.1,
                (MAX_CHAIN_STEPS - chain_steps) as nat,
            ),
            wf(bview(board), sz as int),
            queue_ok(bview(board), chain@, sz),
            ds.len() == chain_steps,
            chain_steps <= MAX_CHAIN_STEPS,
            chain_count <= chain_steps,
            run(init, sz, border_mode, cap_mode, ds) == Some(ChainState {
                board: bview(board),
                queue: chain@,
                count: chain_count as nat,
                killers: last_killer@,
                steps: gsteps,
                exploded: gexp,
            }),
            collect ==> steps_view(steps@) == gsteps && exploded@ == gexp,
            !collect ==> steps@.len() == 0 && exploded@.len() == 0,
        decreases MAX_CHAIN_STEPS - chain_steps,
    {
        let ghost cur = ChainState {
            board: bview(board),
            queue: chain@,
            count: chain_count as nat,
            killers: last_killer@,
            steps: gsteps,
            exploded: gexp,
        };
        let ghost asked0 = rng@.1;
        let ghost fuel0 = (MAX_CHAIN_STEPS - chain_steps) as nat;
        let front = chain.pop_front().unwrap();
        let cx = front.0;
        let cy = front.1;
        chain_steps += 1;
        assert(all_in(cur.queue, sz) ==> cur.queue[0].0 < sz && cur.queue[0].1 < sz);
        let ghost mut dd: (nat, nat, nat) = (0, 0, 0);
        let eff_bm = match border_mode {
            BorderMode::Random => {
                let r = rng_below_u32(&mut rng, 4);
                proof {
                    dd.0 = r as nat;
                }
                if r == 0 {
                    BorderMode::Default
                } else if r == 1 {
                    BorderMode::Wrap
                } else if r == 2 {
                    BorderMode::Bounce
                } else {
                    BorderMode::Degrade
                }
            },
            _ => border_mode,
        };
        assert(eff_border(border_mode, dd.0) == Some(eff_bm));
        let ghost a1 = rng@.1;
        proof {
            if let Some(s) = seed {
                assert((dd.0, a1) == border_draw(s, asked0, border_mode));
            }
        }
        assert(bview(board)[cx as int] == board@[cx as int]@);
        let c = board[cx][cy];
        let (threshold, Ghost(dt)) = explosion_threshold(&c, cx, cy, sz, eff_bm, cap_mode, &mut rng);
        proof {
            dd.1 = dt;
        }
        let ghost a2 = rng@.1;
        if c.count as u32 >= threshold {
            assert(queue_ok(cur.board, cur.queue, sz) ==> (cur.board[cx as int][cy as int].owner is Some
                || cur.board[cx as int][cy as int].count == 0));
            let owner = c.owner.unwrap();
            set_cell(board, cx, cy, Cell { owner: None, count: 0, th: c.th });
            chain_count += 1;
            let (targets, bounce_extra) = explosion_targets(cx, cy, sz, eff_bm);
            let special: Option<usize> = match cap_mode {
                CapMode::Cap3 | CapMode::Cap5 => {
                    if targets.len() == 0 {
                        None
                    } else {
                        let sidx = rng_below_usize(&mut rng, targets.len());
                        proof {
                            dd.2 = sidx as nat;
                        }
                        Some(sidx)
                    }
                },
                _ => None,
            };
            assert(sp_special(cap_mode, targets@.len(), dd.2) == Some(opt_nat(special)));
            proof {
                if let Some(s) = seed {
                    assert(special_draw_ok(cur, sz, eff_bm, cap_mode, threshold, s, a2, dd.2, rng@.1));
                }
            }
            let ghost b1 = bview(board);
            let ghost q1 = chain@;
            assert(q1 == cur.queue.drop_first());
            apply_targets(board, &mut chain, &mut last_killer, &targets, special, cap_mode, owner, Ghost(sz));
            proof {
                lemma_extra_in_targets(cx, cy, sz, eff_bm);
                assert forall|k: int| 0 <= k < bounce_extra@.len()
                    && !is_special_pos(targets@, opt_nat(special), #[trigger] bounce_extra@[k])
                    implies bview(board)[bounce_extra@[k].0 as int][bounce_extra@[k].1 as int].owner is Some by {
                    let e = bounce_extra@[k];
                    assert(targets@.contains(e));
                    let t = choose|t: int| 0 <= t < targets@.len() && targets@[t] == e;
                    assert(targets@[t] == e);
                }
            }
            let ghost b2 = bview(board);
            apply_bounce_extra(board, &bounce_extra, &targets, special, Ghost(sz));
            proof {
                // the queue squares keep their invariant
                assert forall|k: int| 0 <= k < chain@.len() implies (#[trigger] bview(board)[chain@[k].0 as int][chain@[k].1 as int]).owner is Some
                    || bview(board)[chain@[k].0 as int][chain@[k].1 as int].count == 0 by {
                    let t = chain@[k];
                    if k < q1.len() {
                        assert(q1[k] == cur.queue[k + 1]);
                        assert(t.0 < sz && t.1 < sz);
                    } else {
                        assert(targets@.contains(t));
                        let u = choose|u: int| 0 <= u < targets@.len() && targets@[u] == t;
                        assert(all_in(targets@, sz) ==> targets@[u].0 < sz && targets@[u].1 < sz);
                    }
                }
                assert forall|k: int| 0 <= k < chain@.len() implies (#[trigger] chain@[k]).0 < sz && chain@[k].1 < sz by {
                    let t = chain@[k];
                    if k < q1.len() {
                        assert(q1[k] == cur.queue[k + 1]);
                    } else {
                        let u = choose|u: int| 0 <= u < targets@.len() && targets@[u] == t;
                        assert(all_in(targets@, sz) ==> targets@[u].0 < sz && targets@[u].1 < sz);
                    }
                }
            }
            if collect {
                let snap = copy_board(board);
                steps.push(snap);
                exploded.push((cx, cy));
            }
            proof {
                gsteps = gsteps.push(bview(board));
                gexp = gexp.push((cx, cy));
                if collect {
                    assert(steps_view(steps@) =~= gsteps);
                }
            }
        } else {
            proof {
                if let Some(s) = seed {
                    assert(special_draw_ok(cur, sz, eff_bm, cap_mode, threshold, s, a2, dd.2, rng@.1));
                }
                assert forall|k: int| 0 <= k < chain@.len() implies (#[trigger] chain@[k]).0 < sz && chain@[k].1 < sz
                    && (bview(board)[chain@[k].0 as int][chain@[k].1 as int].owner is Some
                    || bview(board)[chain@[k].0 as int][chain@[k].1 as int].count == 0) by {
                    assert(chain@[k] == cur.queue[k + 1]);
                }
            }
        }
        proof {
            let ds1 = ds;
            let ds2 = ds.push(dd);
            assert(ds2.drop_last() =~= ds);
            assert(ds2.last() == dd);
            ds = ds2;
            let nst = ChainState {
                board: bview(board),
                queue: chain@,
                count: chain_count as nat,
                killers: last_killer@,
                steps: gsteps,
                exploded: gexp,
            };
            assert(run(init, sz, border_mode, cap_mode, ds) == Some(nst));
            if let Some(s) = seed {
                lemma_step_draws_eq(cur, sz, border_mode, cap_mode, s, asked0, a1, a2, rng@.1, dd, eff_bm, threshold);
                lemma_seeded_advance(init, ds1, cur, nst, sz, border_mode, cap_mode, s, asked0, rng@.1, dd, fuel0);
            }
        }
    }
    let elim = eliminated_players(&before, board);
    let killed_by = killers_of(&elim, &last_killer);
    let ghost fin = ChainState {
        board: bview(board),
        queue: chain@,
        count: chain_count as nat,
        killers: last_killer@,
        steps: gsteps,
        exploded: gexp,
    };
    assert(chain_outcome(b0, sz, x, y, player, border_mode, cap_mode, d0, ds, fin));
    proof {
        if let Some(s) = seed {
            reveal(seeded_run);
            assert(seeded_run(fin, sz, border_mode, cap_mode, s, rng@.1, (MAX_CHAIN_STEPS - chain_steps) as nat) == fin);
            lemma_elim_of(b0, fin.board, elim@);
        }
    }
    (elim, chain_count, killed_by, steps, exploded)
}


/// A click of `player` on `(x, y)`: places or adds a piece, then runs the chain
/// reaction. Returns the eliminated players (ascending), the number of explosions
/// and, for each eliminated player with a known attacker, `(victim, killer)`.
/// `seed` fixes the random events; without it they come from the system.
pub fn process_click_with_killer(
    board: &mut Vec<Vec<Cell>>,
    sz: usize,
    x: usize,
    y: usize,
    player: usize,
    _max_players: usize,
    border_mode: BorderMode,
    cap_mode: CapMode,
    seed: Option<u64>,
) -> (r: (Vec<usize>, u32, Vec<(usize, usize)>))
    requires
        click_ok(bview(old(board)), sz, x, y, player),
    ensures
        wf(bview(final(board)), sz as int),
        click_result(
            bview(old(board)),
            bview(final(board)),
            sz,
            x,
            y,
            player,
            border_mode,
            cap_mode,
            false,
            r.0@,
            r.1,
            r.2@,
            Seq::empty(),
            Seq::empty(),
        ),
        seed matches Some(s) ==> {
            let c = seeded_click(bview(old(board)), sz, x, y, player, border_mode, cap_mode, s, false);
            bview(final(board)) == c.0 && r.0@ == c.1 && r.1 == c.2 && r.2@ == c.3
        },
{
    let (eliminated, chain_count, killed_by, steps, exploded) = process_click_with_killer_inner(
        board,
        sz,
        x,
        y,
        player,
        _max_players,
        border_mode,
        cap_mode,
        seed,
        false,
    );
    assert(steps_view(steps@) =~= Seq::<Seq<Seq<Cell>>>::empty());
    assert(exploded@ =~= Seq::<(usize, usize)>::empty());
    (eliminated, chain_count, killed_by)
}

/// Like `process_click_with_killer`, and also returns the board after each explosion
/// and the square of each explosion.
pub fn process_click_with_snapshots(
    board: &mut Vec<Vec<Cell>>,
    sz: usize,
    x: usize,
    y: usize,
    player: usize,
    max_players: usize,
    border_mode: BorderMode,
    cap_mode: CapMode,
    seed: Option<u64>,
) -> (r: (Vec<usize>, u32, Vec<(usize, usize)>, Vec<Vec<Vec<Cell>>>, Vec<(usize, usize)>))
    requires
        click_ok(bview(old(board)), sz, x, y, player),
    ensures
        wf(bview(final(board)), sz as int),
        click_result(
            bview(old(board)),
            bview(final(board)),
            sz,
            x,
            y,
            player,
            border_mode,
            cap_mode,
            true,
            r.0@,
            r.1,
            r.2@,
            steps_view(r.3@),
            r.4@,
        ),
        seed matches Some(s) ==> (bview(final(board)), r.0@, r.1, r.2@, steps_view(r.3@), r.4@) == seeded_click(
            bview(old(board)),
            sz,
            x,
            y,
            player,
            border_mode,
            cap_mode,
            s,
            true,
        ),
{
    process_click_with_killer_inner(board, sz, x, y, player, max_players, border_mode, cap_mode, seed, true)
}

/// A click result for some list of attackers.
pub open spec fn click_result_any(
    b0: Seq<Seq<Cell>>,
    b: Seq<Seq<Cell>>,
    sz: usize,
    x: usize,
    y: usize,
    player: usize,
    bm: BorderMode,
    cm: CapMode,
    elim: Seq<usize>,
    chain_count: u32,
) -> bool {
    exists|killed: Seq<(usize, usize)>|
        #[trigger] click_result(b0, b, sz, x, y, player, bm, cm, false, elim, chain_count, killed, Seq::empty(), Seq::empty())
}

/// Like `process_click_with_killer`, without the attackers.
pub fn process_click(
    board: &mut Vec<Vec<Cell>>,
    sz: usize,
    x: usize,
    y: usize,
    player: usize,
    max_players: usize,
    border_mode: BorderMode,
    cap_mode: CapMode,
    seed: Option<u64>,
) -> (r: (Vec<usize>, u32))
    requires
        click_ok(bview(old(board)), sz, x, y, player),
    ensures
        wf(bview(final(board)), sz as int),
        click_result_any(bview(old(board)), bview(final(board)), sz, x, y, player, border_mode, cap_mode, r.0@, r.1),
        seed matches Some(s) ==> {
            let c = seeded_click(bview(old(board)), sz, x, y, player, border_mode, cap_mode, s, false);
            bview(final(board)) == c.0 && r.0@ == c.1 && r.1 == c.2
        },
{
    let ghost b0 = bview(board);
    let (eliminated, chain_count, killed_by) = process_click_with_killer(
        board,
        sz,
        x,
        y,
        player,
        max_players,
        border_mode,
        cap_mode,
        seed,
    );
    assert(click_result(b0, bview(board), sz, x, y, player, border_mode, cap_mode, false, eliminated@, chain_count, killed_by@, Seq::empty(), Seq::empty()));
    assert(click_result_any(b0, bview(board), sz, x, y, player, border_mode, cap_mode, eliminated@, chain_count));
    (eliminated, chain_count)
}


/// The targets of an explosion lie on the board.
pub proof fn lemma_targets_in(i: usize, j: usize, sz: usize, bm: BorderMode)
    requires
        i < sz,
        j < sz,
    ensures
        all_in(sp_targets(i, j, sz, bm), sz),
        all_in(sp_extra(i, j, sz, bm), sz),
{
    assert(all_in(bounce_extra(i, j, sz), sz)) by {
        let es = bounce_extra(i, j, sz);
        assert forall|k: int| 0 <= k < es.len() implies (#[trigger] es[k]).0 < sz && es[k].1 < sz by {
        }
    }
}

/// Every rebound target is also a target.
pub proof fn lemma_extra_in_targets_pub(i: usize, j: usize, sz: usize, bm: BorderMode)
    requires
        i < sz,
        j < sz,
    ensures
        forall|k: int| 0 <= k < sp_extra(i, j, sz, bm).len() ==> sp_targets(i, j, sz, bm).contains(#[trigger] sp_extra(i, j, sz, bm)[k]),
{
    lemma_extra_in_targets(i, j, sz, bm);
}

} // verus!
