use crate::board::{absdiff, bview, set_cell, sp_cell_threshold, upd, wf, BorderMode, CapMode, Cell};
use crate::chain::drawn_threshold;
use vstd::prelude::*;

verus! {

/// A square within two steps (in both directions) of a placed square.
pub open spec fn crowded(pos: Seq<(usize, usize)>, x: usize, y: usize) -> bool {
    exists|k: int| 0 <= k < pos.len() && absdiff(#[trigger] pos[k].0, x) < 3 && absdiff(pos[k].1, y) < 3
}

/// Moves a start three columns and two rows on (around the board) while it is
/// crowded, at most a hundred times.
pub open spec fn settle(pos: Seq<(usize, usize)>, sz: usize, x: usize, y: usize, guard: nat) -> (usize, usize)
    decreases 100 - guard,
{
    if guard < 100 && crowded(pos, x, y) {
        settle(pos, sz, ((x + 3) % (sz as int)) as usize, ((y + 2) % (sz as int)) as usize, guard + 1)
    } else {
        (x, y)
    }
}

/// The starts for the first `n` candidates: each clamped to the board, then moved on
/// until it is clear of the starts before it.
pub open spec fn spread_spec(sz: usize, cands: Seq<(usize, usize)>, n: nat) -> Seq<(usize, usize)>
    decreases n,
{
    if n == 0 {
        Seq::<(usize, usize)>::empty()
    } else {
        let pos = spread_spec(sz, cands, (n - 1) as nat);
        let c = cands[n - 1];
        let x = if c.0 < sz { c.0 } else { (sz - 1) as usize };
        let y = if c.1 < sz { c.1 } else { (sz - 1) as usize };
        pos.push(settle(pos, sz, x, y, 0))
    }
}

proof fn lemma_settle_in(pos: Seq<(usize, usize)>, sz: usize, x: usize, y: usize, guard: nat)
    requires
        x < sz,
        y < sz,
    ensures
        settle(pos, sz, x, y, guard).0 < sz,
        settle(pos, sz, x, y, guard).1 < sz,
    decreases 100 - guard,
{
    if guard < 100 && crowded(pos, x, y) {
        lemma_settle_in(pos, sz, ((x + 3) % (sz as int)) as usize, ((y + 2) % (sz as int)) as usize, guard + 1);
    }
}

/// Whether some start lies within two rows and two columns of `(x, y)`.
fn crowded_exec(pos: &Vec<(usize, usize)>, x: usize, y: usize) -> (r: bool)
    ensures
        r == crowded(pos@, x, y),
{
    let mut k: usize = 0;
    while k < pos.len()
        invariant
            0 <= k <= pos@.len(),
            forall|t: int| 0 <= t < k ==> !(absdiff(#[trigger] pos@[t].0, x) < 3 && absdiff(pos@[t].1, y) < 3),
        decreases pos@.len() - k,
    {
        let (px, py) = pos[k];
        let dx = if px >= x { px - x } else { x - px };
        let dy = if py >= y { py - y } else { y - py };
        if (if dx >= dy { dx } else { dy }) < 3 {
            assert(absdiff(pos@[k as int].0, x) < 3 && absdiff(pos@[k as int].1, y) < 3);
            return true;
        }
        k += 1;
    }
    false
}

/// Lays out first squares for the players, one per candidate square: each is
/// clamped to the board and then moved three columns and two rows on (around the
/// board) while another start lies within two steps of it, at most a hundred times.
pub fn spread_starts(sz: usize, cands: &Vec<(usize, usize)>) -> (r: Vec<(usize, usize)>)
    requires
        1 <= sz <= 1000000,
    ensures
        r@ == spread_spec(sz, cands@, cands@.len()),
        r@.len() == cands@.len(),
        forall|k: int| 0 <= k < r@.len() ==> (#[trigger] r@[k]).0 < sz && r@[k].1 < sz,
{
    let mut pos: Vec<(usize, usize)> = Vec::new();
    let mut i: usize = 0;
    while i < cands.len()
        invariant
            1 <= sz <= 1000000,
            0 <= i <= cands@.len(),
            pos@ == spread_spec(sz, cands@, i as nat),
            pos@.len() == i,
            forall|k: int| 0 <= k < pos@.len() ==> (#[trigger] pos@[k]).0 < sz && pos@[k].1 < sz,
        decreases cands@.len() - i,
    {
        let (cx, cy) = cands[i];
        let mut x = if cx < sz { cx } else { sz - 1 };
        let mut y = if cy < sz { cy } else { sz - 1 };
        let ghost target = settle(pos@, sz, x, y, 0);
        let mut guard: usize = 0;
        while crowded_exec(&pos, x, y) && guard < 100
            invariant
                1 <= sz <= 1000000,
                x < sz,
                y < sz,
                guard <= 100,
                settle(pos@, sz, x, y, guard as nat) == target,
            decreases 100 - guard,
        {
            x = (x + 3) % sz;
            y = (y + 2) % sz;
            guard += 1;
        }
        proof {
            lemma_settle_in(pos@, sz, x, y, guard as nat);
        }
        pos.push((x, y));
        i += 1;
    }
    pos
}

/// The empty board of side `sz`.
pub open spec fn empty_board(sz: usize) -> Seq<Seq<Cell>> {
    Seq::new(sz as nat, |i: int| Seq::new(sz as nat, |j: int| Cell { owner: None, count: 0, th: None }))
}

/// An empty square board.
pub fn build_board(sz: usize) -> (r: Vec<Vec<Cell>>)
    ensures
        wf(bview(&r), sz as int),
        bview(&r) == empty_board(sz),
{
    let mut b: Vec<Vec<Cell>> = Vec::new();
    let mut i: usize = 0;
    while i < sz
        invariant
            0 <= i <= sz,
            b@.len() == i,
            forall|a: int| 0 <= a < i ==> #[trigger] b@[a]@ == Seq::new(sz as nat, |j: int| Cell { owner: None, count: 0, th: None }),
        decreases sz - i,
    {
        let mut row: Vec<Cell> = Vec::new();
        let mut j: usize = 0;
        while j < sz
            invariant
                0 <= j <= sz,
                row@.len() == j,
                forall|c: int| 0 <= c < j ==> #[trigger] row@[c] == (Cell { owner: None, count: 0, th: None }),
            decreases sz - j,
        {
            row.push(Cell { owner: None, count: 0, th: None });
            j += 1;
        }
        assert(row@ =~= Seq::new(sz as nat, |j: int| Cell { owner: None, count: 0, th: None }));
        b.push(row);
        i += 1;
    }
    assert forall|a: int| 0 <= a < sz implies #[trigger] bview(&b)[a] == empty_board(sz)[a] by {
        assert(b@[a]@ == Seq::new(sz as nat, |j: int| Cell { owner: None, count: 0, th: None }));
    }
    assert(bview(&b) =~= empty_board(sz));
    b
}

/// The piece count of a first square: one below the threshold (the middle level
/// under the random cap mode).
pub open spec fn start_count(cm: CapMode) -> u8 {
    match cm {
        CapMode::Cap3 => 2,
        CapMode::Cap4 => 3,
        CapMode::Cap5 => 4,
        CapMode::Random => 2,
    }
}

/// The board with player `k` on the `k`-th start, for the first `n` starts.
pub open spec fn with_starts(b: Seq<Seq<Cell>>, starts: Seq<(usize, usize)>, cm: CapMode, n: nat) -> Seq<Seq<Cell>>
    decreases n,
{
    if n == 0 {
        b
    } else {
        let s = starts[n - 1];
        upd(with_starts(b, starts, cm, (n - 1) as nat), s.0 as int, s.1 as int,
            Cell { owner: Some((n - 1) as usize), count: start_count(cm), th: None })
    }
}

/// A board for a game between programs: player `k` holds one square at the `k`-th
/// start, one below its threshold.
pub fn start_board(sz: usize, starts: &Vec<(usize, usize)>, cap_mode: CapMode) -> (r: Vec<Vec<Cell>>)
    requires
        forall|k: int| 0 <= k < starts@.len() ==> (#[trigger] starts@[k]).0 < sz && starts@[k].1 < sz,
    ensures
        wf(bview(&r), sz as int),
        bview(&r) == with_starts(empty_board(sz), starts@, cap_mode, starts@.len()),
        forall|k: int| 0 <= k < starts@.len() ==> {
            let c = #[trigger] bview(&r)[starts@[k].0 as int][starts@[k].1 as int];
            &&& one_below_threshold(c, starts@[k].0, starts@[k].1, sz, cap_mode)
            &&& c.owner matches Some(j) && k <= j < starts@.len() && starts@[j as int] == starts@[k]
            &&& (forall|l: int| k < l < starts@.len() ==> starts@[l] != starts@[k]) ==> c.owner == Some(k as usize)
        },
        forall|i: int, j: int| 0 <= i < sz && 0 <= j < sz && !starts@.contains((i as usize, j as usize))
            ==> #[trigger] bview(&r)[i][j] == (Cell { owner: None, count: 0, th: None }),
{
    let _n_starts: usize = starts.len();
    proof {
        lemma_start_squares(sz, starts@, cap_mode);
    }
    let mut b = build_board(sz);
    let ghost b0 = bview(&b);
    let th: u32 = match cap_mode {
        CapMode::Cap3 => 3,
        CapMode::Cap4 => 4,
        CapMode::Cap5 => 5,
        CapMode::Random => 3,
    };
    let mut p: usize = 0;
    while p < starts.len()
        invariant
            0 <= p <= starts@.len(),
            forall|k: int| 0 <= k < starts@.len() ==> (#[trigger] starts@[k]).0 < sz && starts@[k].1 < sz,
            wf(bview(&b), sz as int),
            bview(&b) == with_starts(b0, starts@, cap_mode, p as nat),
            th == start_count(cap_mode) + 1,
        decreases starts@.len() - p,
    {
        let (x, y) = starts[p];
        assert(starts@[p as int].0 < sz && starts@[p as int].1 < sz);
        assert(bview(&b)[x as int] == b@[x as int]@);
        set_cell(&mut b, x, y, Cell { owner: Some(p), count: (th - 1) as u8, th: None });
        p += 1;
    }
    b
}

/// What a start square holds: a piece count one below the square's threshold under
/// the cap mode (with a border that keeps thresholds fixed), or under the random cap
/// mode one below the lowest threshold it draws.
pub open spec fn one_below_threshold(c: Cell, x: usize, y: usize, sz: usize, cm: CapMode) -> bool {
    if cm == CapMode::Random {
        drawn_threshold(x, y, sz, BorderMode::Default, cm, 0) == Some((c.count + 1) as u32)
            && forall|d: nat| d < 3 ==> #[trigger] drawn_threshold(x, y, sz, BorderMode::Default, cm, d).unwrap() >= c.count + 1
    } else {
        c.count + 1 == sp_cell_threshold(x, y, sz, BorderMode::Default, cm)
    }
}

proof fn lemma_start_count_ok(c: Cell, x: usize, y: usize, sz: usize, cm: CapMode)
    requires
        c.count == start_count(cm),
    ensures
        one_below_threshold(c, x, y, sz, cm),
{
    if cm == CapMode::Random {
        assert forall|d: nat| d < 3 implies #[trigger] drawn_threshold(x, y, sz, BorderMode::Default, cm, d).unwrap() >= c.count + 1 by {}
    }
}

/// The cell of the `k`-th of the first `n` starts: the start count, owned by the last
/// of those starts on that square.
spec fn start_cell_ok(c: Cell, starts: Seq<(usize, usize)>, k: int, n: nat, cm: CapMode) -> bool {
    &&& c.count == start_count(cm)
    &&& c.owner is Some
    &&& k <= c.owner.unwrap() < n
    &&& starts[c.owner.unwrap() as int] == starts[k]
    &&& (forall|l: int| k < l < n ==> starts[l] != starts[k]) ==> c.owner == Some(k as usize)
}

proof fn lemma_start_cells(sz: usize, starts: Seq<(usize, usize)>, cm: CapMode, n: nat)
    requires
        n <= starts.len(),
        starts.len() <= usize::MAX,
        forall|k: int| 0 <= k < starts.len() ==> (#[trigger] starts[k]).0 < sz && starts[k].1 < sz,
    ensures
        wf(with_starts(empty_board(sz), starts, cm, n), sz as int),
        forall|k: int| 0 <= k < n ==> start_cell_ok(
            #[trigger] with_starts(empty_board(sz), starts, cm, n)[starts[k].0 as int][starts[k].1 as int], starts, k, n, cm),
        forall|i: int, j: int| 0 <= i < sz && 0 <= j < sz && !starts.take(n as int).contains((i as usize, j as usize))
            ==> #[trigger] with_starts(empty_board(sz), starts, cm, n)[i][j] == (Cell { owner: None, count: 0, th: None }),
    decreases n,
{
    if n > 0 {
        let m = (n - 1) as nat;
        lemma_start_cells(sz, starts, cm, m);
        let prev = with_starts(empty_board(sz), starts, cm, m);
        let cur = with_starts(empty_board(sz), starts, cm, n);
        let s = starts[m as int];
        assert(s.0 < sz && s.1 < sz);
        let nc = Cell { owner: Some(m as usize), count: start_count(cm), th: None };
        assert(cur == upd(prev, s.0 as int, s.1 as int, nc));
        assert forall|k: int| 0 <= k < n implies start_cell_ok(#[trigger] cur[starts[k].0 as int][starts[k].1 as int], starts, k, n, cm) by {
            let t = starts[k];
            assert(t.0 < sz && t.1 < sz);
            if t == s {
                assert(cur[t.0 as int][t.1 as int] == nc);
            } else {
                assert(k != m);
                assert(cur[t.0 as int][t.1 as int] == prev[t.0 as int][t.1 as int]);
                assert(start_cell_ok(prev[t.0 as int][t.1 as int], starts, k, m, cm));
            }
        }
        assert forall|i: int, j: int| 0 <= i < sz && 0 <= j < sz && !starts.take(n as int).contains((i as usize, j as usize))
            implies #[trigger] cur[i][j] == (Cell { owner: None, count: 0, th: None }) by {
            assert(starts.take(n as int)[m as int] == s);
            if starts.take(m as int).contains((i as usize, j as usize)) {
                let a = choose|a: int| 0 <= a < m && starts.take(m as int)[a] == (i as usize, j as usize);
                assert(starts.take(n as int)[a] == (i as usize, j as usize));
            }
            assert((i as usize, j as usize) != s);
        }
    }
}

/// The start squares of a start board: each holds one piece below its threshold
/// (`one_below_threshold`) and belongs to the player whose start it is last; every
/// other square is empty.
pub proof fn lemma_start_squares(sz: usize, starts: Seq<(usize, usize)>, cm: CapMode)
    requires
        starts.len() <= usize::MAX,
        forall|k: int| 0 <= k < starts.len() ==> (#[trigger] starts[k]).0 < sz && starts[k].1 < sz,
    ensures
        wf(with_starts(empty_board(sz), starts, cm, starts.len()), sz as int),
        forall|k: int| 0 <= k < starts.len() ==> {
            let c = #[trigger] with_starts(empty_board(sz), starts, cm, starts.len())[starts[k].0 as int][starts[k].1 as int];
            &&& one_below_threshold(c, starts[k].0, starts[k].1, sz, cm)
            &&& c.owner matches Some(j) && k <= j < starts.len() && starts[j as int] == starts[k]
            &&& (forall|l: int| k < l < starts.len() ==> starts[l] != starts[k]) ==> c.owner == Some(k as usize)
        },
        forall|i: int, j: int| 0 <= i < sz && 0 <= j < sz && !starts.contains((i as usize, j as usize))
            ==> #[trigger] with_starts(empty_board(sz), starts, cm, starts.len())[i][j] == (Cell { owner: None, count: 0, th: None }),
{
    let n = starts.len();
    lemma_start_cells(sz, starts, cm, n);
    assert(starts.take(n as int) =~= starts);
    let bd = with_starts(empty_board(sz), starts, cm, n);
    assert forall|k: int| 0 <= k < n implies {
        let c = #[trigger] bd[starts[k].0 as int][starts[k].1 as int];
        &&& one_below_threshold(c, starts[k].0, starts[k].1, sz, cm)
        &&& c.owner matches Some(j) && k <= j < starts.len() && starts[j as int] == starts[k]
        &&& (forall|l: int| k < l < starts.len() ==> starts[l] != starts[k]) ==> c.owner == Some(k as usize)
    } by {
        let c = bd[starts[k].0 as int][starts[k].1 as int];
        assert(start_cell_ok(c, starts, k, n, cm));
        lemma_start_count_ok(c, starts[k].0, starts[k].1, sz, cm);
    }
}

} // verus!
