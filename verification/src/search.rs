use crate::board::{
    bview, has_pieces, is_in_any_restricted_zone, legal_move, lex_lt, owns_any, sp_in_any_zone, wf, BorderMode, CapMode, Cell,
};
use crate::chain::{click_result_any, process_click, seeded_click};
use crate::sim::{add_missing, add_new_players};
use vstd::prelude::*;

verus! {

// ─── first move ───

/// Twice the Manhattan distance of a square from the centre of the board.
pub open spec fn center_dist2(m: (usize, usize), sz: usize) -> int {
    let a = 2 * m.0 - sz + 1;
    let b = 2 * m.1 - sz + 1;
    (if a >= 0 { a } else { -a }) + (if b >= 0 { b } else { -b })
}

/// The candidates for a first move, by preference: `0` an empty inner square
/// outside every zone, `1` any empty square outside every zone, `2` any empty square.
pub open spec fn in_tier(b: Seq<Seq<Cell>>, sz: usize, t: nat, m: (usize, usize)) -> bool {
    &&& m.0 < sz && m.1 < sz
    &&& b[m.0 as int][m.1 as int].owner is None
    &&& (t <= 1 ==> !sp_in_any_zone(b, sz, m.0, m.1))
    &&& (t == 0 ==> 1 <= m.0 && m.0 + 1 < sz && 1 <= m.1 && m.1 + 1 < sz)
}

/// No square lies in tier `t`.
pub open spec fn tier_empty(b: Seq<Seq<Cell>>, sz: usize, t: nat) -> bool {
    forall|m: (usize, usize)| !in_tier(b, sz, t, m)
}

/// `m` is the first square in row-major order among the squares of the tier
/// nearest to the centre.
pub open spec fn is_center_pick(b: Seq<Seq<Cell>>, sz: usize, t: nat, m: (usize, usize)) -> bool {
    &&& in_tier(b, sz, t, m)
    &&& forall|c: (usize, usize)| in_tier(b, sz, t, c) ==> center_dist2(m, sz) <= center_dist2(c, sz)
    &&& forall|c: (usize, usize)| in_tier(b, sz, t, c) && center_dist2(c, sz) == center_dist2(m, sz) ==> !lex_lt(c, m)
}

/// The first-move choice: the square nearest the centre in the first non-empty tier.
pub open spec fn first_move_spec(b: Seq<Seq<Cell>>, sz: usize, r: Option<(usize, usize)>) -> bool {
    if !tier_empty(b, sz, 0) {
        r matches Some(m) && is_center_pick(b, sz, 0, m)
    } else if !tier_empty(b, sz, 1) {
        r matches Some(m) && is_center_pick(b, sz, 1, m)
    } else if !tier_empty(b, sz, 2) {
        r matches Some(m) && is_center_pick(b, sz, 2, m)
    } else {
        r is None
    }
}

/// Twice the Manhattan distance of `m` from the centre.
fn dist2_exec(m: (usize, usize), sz: usize) -> (r: u64)
    requires
        m.0 < sz,
        m.1 < sz,
        sz <= 1000000,
    ensures
        r == center_dist2(m, sz),
{
    let a: u64 = if 2 * m.0 + 1 >= sz { (2 * m.0 + 1 - sz) as u64 } else { (sz - 1 - 2 * m.0) as u64 };
    let b: u64 = if 2 * m.1 + 1 >= sz { (2 * m.1 + 1 - sz) as u64 } else { (sz - 1 - 2 * m.1) as u64 };
    a + b
}

/// Whether `m` lies in tier `t`.
fn tier_member(board: &Vec<Vec<Cell>>, sz: usize, t: u8, m: (usize, usize)) -> (r: bool)
    requires
        wf(bview(board), sz as int),
        m.0 < sz,
        m.1 < sz,
    ensures
        r == in_tier(bview(board), sz, t as nat, m),
{
    assert(bview(board)[m.0 as int] == board@[m.0 as int]@);
    if board[m.0][m.1].owner.is_some() {
        return false;
    }
    if t == 0 && !(1 <= m.0 && m.0 + 1 < sz && 1 <= m.1 && m.1 + 1 < sz) {
        return false;
    }
    if t <= 1 {
        !is_in_any_restricted_zone(board, sz, m.0, m.1)
    } else {
        true
    }
}

/// The square of tier `t` nearest the centre, first in row-major order on ties.
fn best_in_tier(board: &Vec<Vec<Cell>>, sz: usize, t: u8) -> (r: Option<(usize, usize)>)
    requires
        wf(bview(board), sz as int),
        sz <= 1000000,
    ensures
        r is None <==> tier_empty(bview(board), sz, t as nat),
        r matches Some(m) ==> is_center_pick(bview(board), sz, t as nat, m),
{
    let ghost b = bview(board);
    let mut best: Option<(usize, usize)> = None;
    let mut best_d: u64 = 0;
    let mut i: usize = 0;
    while i < sz
        invariant
            b == bview(board),
            wf(b, sz as int),
            sz <= 1000000,
            0 <= i <= sz,
            best is None ==> forall|c: (usize, usize)| in_tier(b, sz, t as nat, c) ==> c.0 >= i,
            best matches Some(m) ==> {
                &&& in_tier(b, sz, t as nat, m)
                &&& m.0 < i
                &&& best_d == center_dist2(m, sz)
                &&& forall|c: (usize, usize)| in_tier(b, sz, t as nat, c) && c.0 < i ==> center_dist2(m, sz) <= center_dist2(c, sz)
                &&& forall|c: (usize, usize)| in_tier(b, sz, t as nat, c) && c.0 < i && center_dist2(c, sz) == center_dist2(m, sz) ==> !lex_lt(c, m)
            },
        decreases sz - i,
    {
        let mut j: usize = 0;
        while j < sz
            invariant
                b == bview(board),
                wf(b, sz as int),
                sz <= 1000000,
                0 <= i < sz,
                0 <= j <= sz,
                best is None ==> forall|c: (usize, usize)| in_tier(b, sz, t as nat, c) ==> !lex_lt(c, (i, j)),
                best matches Some(m) ==> {
                    &&& in_tier(b, sz, t as nat, m)
                    &&& lex_lt(m, (i, j))
                    &&& best_d == center_dist2(m, sz)
                    &&& forall|c: (usize, usize)| in_tier(b, sz, t as nat, c) && lex_lt(c, (i, j)) ==> center_dist2(m, sz) <= center_dist2(c, sz)
                    &&& forall|c: (usize, usize)| in_tier(b, sz, t as nat, c) && lex_lt(c, (i, j)) && center_dist2(c, sz) == center_dist2(m, sz) ==> !lex_lt(c, m)
                },
            decreases sz - j,
        {
            if tier_member(board, sz, t, (i, j)) {
                let d = dist2_exec((i, j), sz);
                match best {
                    None => {
                        best = Some((i, j));
                        best_d = d;
                    },
                    Some(_) => {
                        if d < best_d {
                            best = Some((i, j));
                            best_d = d;
                        }
                    },
                }
            }
            j += 1;
        }
        i += 1;
    }
    best
}

/// Chooses a first move: the empty square nearest the centre, preferring inner
/// squares outside every piece's zone, then any square outside every zone, then any
/// empty square.
pub fn first_move_center(board: &Vec<Vec<Cell>>, sz: usize) -> (r: Option<(usize, usize)>)
    requires
        wf(bview(board), sz as int),
        1 <= sz <= 1000000,
    ensures
        first_move_spec(bview(board), sz, r),
{
    let a = best_in_tier(board, sz, 0);
    if a.is_some() {
        return a;
    }
    let c = best_in_tier(board, sz, 1);
    if c.is_some() {
        return c;
    }
    best_in_tier(board, sz, 2)
}


// ─── turn order ───

/// Whether `p` is listed.
pub fn contains_player(s: &Vec<usize>, p: usize) -> (r: bool)
    ensures
        r == s@.contains(p),
{
    let mut k: usize = 0;
    while k < s.len()
        invariant
            0 <= k <= s@.len(),
            forall|t: int| 0 <= t < k ==> s@[t] != p,
        decreases s@.len() - k,
    {
        if s[k] == p {
            assert(s@[k as int] == p);
            return true;
        }
        k += 1;
    }
    false
}

/// The players below `n`, ascending, that are not out (per `out`) and either are
/// `current` or still have a piece on the board.
pub open spec fn live_upto(b: Seq<Seq<Cell>>, out: spec_fn(usize) -> bool, current: usize, n: nat) -> Seq<usize>
    decreases n,
{
    if n == 0 {
        Seq::<usize>::empty()
    } else {
        let s = live_upto(b, out, current, (n - 1) as nat);
        let p = (n - 1) as usize;
        if !out(p) && (p == current || owns_any(b, p)) { s.push(p) } else { s }
    }
}

/// The first index of `x` in `s`, or 0 when it is absent.
pub open spec fn index_or_zero(s: Seq<usize>, x: usize) -> int {
    if s.contains(x) { choose|k: int| 0 <= k < s.len() && s[k] == x && forall|t: int| 0 <= t < k ==> s[t] != x } else { 0 }
}

/// The player after `current` in turn order among the live players; `current` itself
/// when at most one is live.
pub open spec fn next_live(b: Seq<Seq<Cell>>, out: spec_fn(usize) -> bool, current: usize, max_players: usize) -> usize {
    let a = live_upto(b, out, current, max_players as nat);
    if a.len() <= 1 { current } else { a[(index_or_zero(a, current) + 1) % (a.len() as int)] }
}

proof fn lemma_live_upto_props(b: Seq<Seq<Cell>>, out: spec_fn(usize) -> bool, current: usize, n: nat)
    requires
        n <= usize::MAX,
    ensures
        live_upto(b, out, current, n).len() <= n,
        forall|k: int| 0 <= k < live_upto(b, out, current, n).len() ==> #[trigger] live_upto(b, out, current, n)[k] < n,
        forall|a: int, c: int| 0 <= a < c < live_upto(b, out, current, n).len() ==> live_upto(b, out, current, n)[a] < live_upto(b, out, current, n)[c],
    decreases n,
{
    if n > 0 {
        lemma_live_upto_props(b, out, current, (n - 1) as nat);
        let s = live_upto(b, out, current, (n - 1) as nat);
        let p = (n - 1) as usize;
        if !out(p) && (p == current || owns_any(b, p)) {
            let t = s.push(p);
            assert(live_upto(b, out, current, n) == t);
            assert forall|a: int, c: int| 0 <= a < c < t.len() implies t[a] < t[c] by {
                if c == s.len() {
                    assert(t[a] == s[a]);
                    assert(s[a] < n - 1);
                } else {
                    assert(t[a] == s[a] && t[c] == s[c]);
                }
            }
        }
    }
}

/// The position of `x` in `s`, or 0 when it is absent.
pub(crate) fn position_or_zero(s: &Vec<usize>, x: usize) -> (r: usize)
    ensures
        r == index_or_zero(s@, x),
        s@.len() > 0 ==> r < s@.len(),
{
    let mut k: usize = 0;
    while k < s.len()
        invariant
            0 <= k <= s@.len(),
            forall|t: int| 0 <= t < k ==> s@[t] != x,
        decreases s@.len() - k,
    {
        if s[k] == x {
            assert(s@.contains(x));
            let ghost c = choose|c: int| 0 <= c < s@.len() && s@[c] == x && forall|t: int| 0 <= t < c ==> s@[t] != x;
            assert(c == k) by {
                if c < k {
                } else if c > k {
                }
            }
            return k;
        }
        k += 1;
    }
    0
}

/// The player to move after `current`: the next live player in turn order, where a
/// player is live when not eliminated and either `current` or still on the board.
pub fn next_live_player(board: &Vec<Vec<Cell>>, _sz: usize, current: usize, eliminated: &Vec<usize>, max_players: usize) -> (r: usize)
    ensures
        r == next_live(bview(board), |p: usize| eliminated@.contains(p), current, max_players),
{
    let ghost out = |p: usize| eliminated@.contains(p);
    let mut alive: Vec<usize> = Vec::new();
    let mut p: usize = 0;
    while p < max_players
        invariant
            0 <= p <= max_players,
            out == (|q: usize| eliminated@.contains(q)),
            alive@ == live_upto(bview(board), out, current, p as nat),
        decreases max_players - p,
    {
        assert(out(p) == eliminated@.contains(p));
        if !contains_player(eliminated, p) && (p == current || has_pieces(board, p)) {
            alive.push(p);
        }
        p += 1;
    }
    proof {
        lemma_live_upto_props(bview(board), out, current, max_players as nat);
    }
    if alive.len() <= 1 {
        return current;
    }
    let idx = position_or_zero(&alive, current);
    alive[(idx + 1) % alive.len()]
}

proof fn lemma_bit_zero(q: u32)
    requires
        q < 32,
    ensures
        (0u32 >> q) & 1u32 == 0u32,
{
    assert((0u32 >> q) & 1u32 == 0u32) by (bit_vector)
        requires
            q < 32,
    ;
}

proof fn lemma_bit_or(x: u32, p: u32, q: u32)
    requires
        p < 32,
        q < 32,
    ensures
        (((x | (1u32 << p)) >> q) & 1u32 != 0u32) == (((x >> q) & 1u32 != 0u32) || q == p),
{
    assert((((x | (1u32 << p)) >> q) & 1u32 != 0u32) == (((x >> q) & 1u32 != 0u32) || q == p)) by (bit_vector)
        requires
            p < 32,
            q < 32,
    ;
}

/// A set of at most 32 players held in the bits of a word.
#[derive(Clone, Copy)]
pub struct ElimSet(u32);

impl ElimSet {
    pub closed spec fn has(self, p: usize) -> bool {
        p < 32 && (self.0 >> (p as u32)) & 1u32 != 0u32
    }

    pub fn from_slice(s: &[usize]) -> (r: ElimSet)
        requires
            forall|k: int| 0 <= k < s@.len() ==> #[trigger] s@[k] < 32,
        ensures
            forall|p: usize| r.has(p) <==> s@.contains(p),
    {
        let mut e = ElimSet(0);
        proof {
            assert forall|q: usize| !e.has(q) by {
                if q < 32 {
                    lemma_bit_zero(q as u32);
                }
            }
        }
        let mut k: usize = 0;
        while k < s.len()
            invariant
                0 <= k <= s@.len(),
                forall|t: int| 0 <= t < s@.len() ==> #[trigger] s@[t] < 32,
                forall|p: usize| e.has(p) <==> exists|t: int| 0 <= t < k && s@[t] == p,
            decreases s@.len() - k,
        {
            let p = s[k];
            let ghost old_e = e;
            e.add(p);
            assert forall|q: usize| e.has(q) <==> exists|t: int| 0 <= t < k + 1 && s@[t] == q by {
                if q == p {
                    assert(s@[k as int] == q);
                }
            }
            k += 1;
        }
        e
    }

    pub fn add(&mut self, p: usize)
        requires
            p < 32,
        ensures
            forall|q: usize| final(self).has(q) <==> (old(self).has(q) || q == p),
    {
        let x = self.0;
        let pp = p as u32;
        self.0 = x | (1u32 << pp);
        proof {
            assert forall|q: usize| self.has(q) <==> (old(self).has(q) || q == p) by {
                if q < 32 {
                    lemma_bit_or(x, pp, q as u32);
                }
            }
        }
    }

    pub fn contains(&self, p: usize) -> (r: bool)
        requires
            p < 32,
        ensures
            r == self.has(p),
    {
        (self.0 >> (p as u32)) & 1 != 0
    }
}

/// `next_live_player` over a set of eliminated players; at most ten players.
pub fn next_live_player_es(board: &Vec<Vec<Cell>>, _sz: usize, current: usize, elim: ElimSet, max_players: usize) -> (r: usize)
    requires
        max_players <= 10,
    ensures
        r == next_live(bview(board), |p: usize| elim.has(p), current, max_players),
{
    let ghost out = |p: usize| elim.has(p);
    let mut alive: Vec<usize> = Vec::new();
    let mut p: usize = 0;
    while p < max_players
        invariant
            0 <= p <= max_players,
            max_players <= 10,
            out == (|q: usize| elim.has(q)),
            alive@ == live_upto(bview(board), out, current, p as nat),
        decreases max_players - p,
    {
        assert(out(p) == elim.has(p));
        if !elim.contains(p) && (p == current || has_pieces(board, p)) {
            alive.push(p);
        }
        p += 1;
    }
    proof {
        lemma_live_upto_props(bview(board), out, current, max_players as nat);
    }
    if alive.len() <= 1 {
        return current;
    }
    let idx = position_or_zero(&alive, current);
    alive[(idx + 1) % alive.len()]
}

/// The players counted out: those listed in `e`.
pub open spec fn out_of(e: Seq<usize>) -> spec_fn(usize) -> bool {
    |p: usize| e.contains(p)
}

/// One ply: `player` plays `m` on `b`, which becomes `b2`; the players that the chain
/// eliminates join `e`, giving `e2`; and the turn passes to `next`.
pub open spec fn ply(
    b: Seq<Seq<Cell>>,
    e: Seq<usize>,
    player: usize,
    m: (usize, usize),
    b2: Seq<Seq<Cell>>,
    e2: Seq<usize>,
    next: usize,
    sz: usize,
    max_players: usize,
    bm: BorderMode,
    cm: CapMode,
) -> bool {
    &&& wf(b2, sz as int)
    &&& exists|el: Seq<usize>, cc: u32|
        #[trigger] click_result_any(b, b2, sz, m.0, m.1, player, bm, cm, el, cc) && e2 == add_missing(e, el, el.len())
    &&& b2 == seeded_click(b, sz, m.0, m.1, player, bm, cm, 0, false).0
    &&& e2 == add_missing(
        e,
        seeded_click(b, sz, m.0, m.1, player, bm, cm, 0, false).1,
        seeded_click(b, sz, m.0, m.1, player, bm, cm, 0, false).1.len(),
    )
    &&& next == next_live(b2, out_of(e2), player, max_players)
}

/// Plays the legal move `m` for `player` with the fixed seed of the searches, adds the
/// players it eliminates to `elim` and returns the player to move next.
pub fn play_move(
    board: &mut Vec<Vec<Cell>>,
    sz: usize,
    m: (usize, usize),
    player: usize,
    max_players: usize,
    elim: &mut Vec<usize>,
    border_mode: BorderMode,
    cap_mode: CapMode,
) -> (next: usize)
    requires
        wf(bview(old(board)), sz as int),
        legal_move(bview(old(board)), sz, player, border_mode, cap_mode, m),
    ensures
        ply(bview(old(board)), old(elim)@, player, m, bview(final(board)), final(elim)@, next, sz, max_players, border_mode, cap_mode),
{
    proof {
        let b = bview(board);
        if owns_any(b, player) {
            assert((b[m.0 as int][m.1 as int].count as u32) < 6);
        }
    }
    let (new_elim, cc) = process_click(board, sz, m.0, m.1, player, max_players, border_mode, cap_mode, Some(0));
    add_new_players(elim, &new_elim);
    let next = next_live_player(board, sz, player, elim, max_players);
    proof {
        assert(out_of(elim@) =~= (|p: usize| elim@.contains(p)));
    }
    next
}

} // verus!
