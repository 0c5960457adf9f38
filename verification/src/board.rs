use vstd::prelude::*;

verus! {

/// How an explosion treats the edge of the board.
#[derive(Clone, Copy, Debug, PartialEq, Eq, Structural)]
pub enum BorderMode {
    Default,
    Wrap,
    Bounce,
    Degrade,
    Random,
}

/// Explosion threshold mode.
#[derive(Clone, Copy, Debug, PartialEq, Eq, Structural)]
pub enum CapMode {
    Cap3,
    Cap4,
    Cap5,
    Random,
}

impl Default for CapMode {
    /// Four pieces make a square explode.
    fn default() -> (r: CapMode)
        ensures
            r == CapMode::Cap4,
    {
        CapMode::Cap4
    }
}

/// A square board, row by row.
pub type GameBoard = Vec<Vec<Cell>>;

/// One square of the board.
#[derive(Clone, Copy, Debug, PartialEq, Eq, Structural)]
pub struct Cell {
    pub owner: Option<usize>,
    pub count: u8,
    pub th: Option<u8>,
}

/// The board as a sequence of rows.
pub open spec fn bview(b: &Vec<Vec<Cell>>) -> Seq<Seq<Cell>> {
    b@.map_values(|r: Vec<Cell>| r@)
}

/// A square board of side `sz`.
pub open spec fn wf(b: Seq<Seq<Cell>>, sz: int) -> bool {
    &&& b.len() == sz
    &&& forall|i: int| 0 <= i < sz ==> #[trigger] b[i].len() == sz
}

/// The board with square `(i, j)` replaced by `c`.
pub open spec fn upd(b: Seq<Seq<Cell>>, i: int, j: int, c: Cell) -> Seq<Seq<Cell>> {
    b.update(i, b[i].update(j, c))
}

/// Writes `c` into square `(i, j)`.
pub fn set_cell(board: &mut Vec<Vec<Cell>>, i: usize, j: usize, c: Cell)
    requires
        i < old(board)@.len(),
        j < old(board)@[i as int]@.len(),
    ensures
        bview(final(board)) == upd(bview(old(board)), i as int, j as int, c),
{
    board[i].set(j, c);
    assert(bview(board) =~= upd(bview(old(board)), i as int, j as int, c));
}


/// Whether `p` owns at least one square.
pub open spec fn owns_any(b: Seq<Seq<Cell>>, p: usize) -> bool {
    exists|i: int, j: int| 0 <= i < b.len() && 0 <= j < b[i].len() && #[trigger] b[i][j].owner == Some(p)
}

/// Whether `player` has at least one piece on the board.
pub fn has_pieces(board: &Vec<Vec<Cell>>, player: usize) -> (r: bool)
    ensures
        r == owns_any(bview(board), player),
{
    let mut i: usize = 0;
    while i < board.len()
        invariant
            0 <= i <= board@.len(),
            forall|a: int, c: int| 0 <= a < i && 0 <= c < bview(board)[a].len()
                ==> bview(board)[a][c].owner != Some(player),
        decreases board@.len() - i,
    {
        let row = &board[i];
        let mut j: usize = 0;
        while j < row.len()
            invariant
                0 <= i < board@.len(),
                row@ == bview(board)[i as int],
                0 <= j <= row@.len(),
                forall|c: int| 0 <= c < j ==> row@[c].owner != Some(player),
            decreases row@.len() - j,
        {
            if row[j].owner == Some(player) {
                assert(bview(board)[i as int][j as int].owner == Some(player));
                return true;
            }
            j += 1;
        }
        i += 1;
    }
    false
}

/// Orthogonal neighbours that lie on the board, in the order up, down, left, right.
pub open spec fn sp_nbrs(i: usize, j: usize, sz: usize) -> Seq<(usize, usize)> {
    let s0 = if i > 0 { seq![((i - 1) as usize, j)] } else { Seq::<(usize, usize)>::empty() };
    let s1 = if i + 1 < sz { s0.push(((i + 1) as usize, j)) } else { s0 };
    let s2 = if j > 0 { s1.push((i, (j - 1) as usize)) } else { s1 };
    if j + 1 < sz { s2.push((i, (j + 1) as usize)) } else { s2 }
}

/// Neighbours on a torus: up, down, left, right, each wrapping to the opposite edge.
pub open spec fn sp_nbrs_wrap(i: usize, j: usize, sz: usize) -> Seq<(usize, usize)> {
    let up = if i == 0 { (sz - 1) as usize } else { (i - 1) as usize };
    let down = if i + 1 >= sz { 0usize } else { (i + 1) as usize };
    let left = if j == 0 { (sz - 1) as usize } else { (j - 1) as usize };
    let right = if j + 1 >= sz { 0usize } else { (j + 1) as usize };
    seq![(up, j), (down, j), (i, left), (i, right)]
}

/// The neighbours that an explosion feeds: wrapped on a torus, clipped to the board otherwise.
pub open spec fn sp_nbrs_with_mode(i: usize, j: usize, sz: usize, bm: BorderMode) -> Seq<(usize, usize)> {
    match bm {
        BorderMode::Wrap => sp_nbrs_wrap(i, j, sz),
        _ => sp_nbrs(i, j, sz),
    }
}

/// Every listed square lies on a board of side `sz`.
pub open spec fn all_in(s: Seq<(usize, usize)>, sz: usize) -> bool {
    forall|k: int| 0 <= k < s.len() ==> (#[trigger] s[k]).0 < sz && s[k].1 < sz
}

/// The orthogonal neighbours of `(i, j)` that lie on the board.
pub fn nbrs(i: usize, j: usize, sz: usize) -> (r: Vec<(usize, usize)>)
    requires
        i < sz,
        j < sz,
    ensures
        r@ == sp_nbrs(i, j, sz),
        all_in(r@, sz),
{
    let mut r: Vec<(usize, usize)> = Vec::new();
    if i > 0 {
        r.push((i - 1, j));
    }
    if i + 1 < sz {
        r.push((i + 1, j));
    }
    if j > 0 {
        r.push((i, j - 1));
    }
    if j + 1 < sz {
        r.push((i, j + 1));
    }
    assert(r@ =~= sp_nbrs(i, j, sz));
    r
}

/// The four orthogonal neighbours of `(i, j)` on a torus.
pub fn nbrs_wrap(i: usize, j: usize, sz: usize) -> (r: Vec<(usize, usize)>)
    requires
        i < sz,
        j < sz,
    ensures
        r@ == sp_nbrs_wrap(i, j, sz),
        all_in(r@, sz),
        r@.len() == 4,
{
    let up = if i == 0 { sz - 1 } else { i - 1 };
    let down = if i + 1 >= sz { 0 } else { i + 1 };
    let left = if j == 0 { sz - 1 } else { j - 1 };
    let right = if j + 1 >= sz { 0 } else { j + 1 };
    let r = vec![(up, j), (down, j), (i, left), (i, right)];
    assert(r@ =~= sp_nbrs_wrap(i, j, sz));
    r
}

/// The neighbours of `(i, j)` under the given border mode.
pub fn nbrs_with_mode(i: usize, j: usize, sz: usize, border_mode: BorderMode) -> (r: Vec<(usize, usize)>)
    requires
        i < sz,
        j < sz,
    ensures
        r@ == sp_nbrs_with_mode(i, j, sz, border_mode),
        all_in(r@, sz),
{
    match border_mode {
        BorderMode::Wrap => nbrs_wrap(i, j, sz),
        _ => nbrs(i, j, sz),
    }
}

/// Whether `(x, y)` is one of the four corners.
pub open spec fn on_corner(x: usize, y: usize, sz: usize) -> bool {
    (x == 0 || x == sz - 1) && (y == 0 || y == sz - 1)
}

/// Whether `(x, y)` lies on the outer ring.
pub open spec fn on_edge(x: usize, y: usize, sz: usize) -> bool {
    x == 0 || x == sz - 1 || y == 0 || y == sz - 1
}

/// Threshold of the degrade border: 2 in a corner, 3 on an edge, 4 inside.
pub open spec fn degrade_threshold(x: usize, y: usize, sz: usize) -> u32 {
    if on_corner(x, y, sz) { 2 } else if on_edge(x, y, sz) { 3 } else { 4 }
}

/// Threshold of a square when the random cap mode is read as its middle value.
pub open spec fn sp_cell_threshold(x: usize, y: usize, sz: usize, bm: BorderMode, cm: CapMode) -> u32 {
    match cm {
        CapMode::Cap3 => 3,
        CapMode::Cap5 => 5,
        CapMode::Random => 4,
        CapMode::Cap4 => match bm {
            BorderMode::Degrade => degrade_threshold(x, y, sz),
            _ => 4,
        },
    }
}

/// The number of pieces that makes square `(x, y)` explode.
pub fn cell_threshold(x: usize, y: usize, sz: usize, border_mode: BorderMode, cap_mode: CapMode) -> (r: u32)
    requires
        sz >= 1,
    ensures
        r == sp_cell_threshold(x, y, sz, border_mode, cap_mode),
        2 <= r <= 5,
        border_mode == BorderMode::Degrade && cap_mode == CapMode::Cap4 && sz >= 2 && x < sz && y < sz
            ==> r == sp_nbrs(x, y, sz).len(),
{
    proof {
        if border_mode == BorderMode::Degrade && cap_mode == CapMode::Cap4 && sz >= 2 && x < sz && y < sz {
            lemma_degrade_threshold_is_neighbours(x, y, sz);
        }
    }
    match cap_mode {
        CapMode::Cap3 => 3,
        CapMode::Cap5 => 5,
        CapMode::Random => 4,
        CapMode::Cap4 => match border_mode {
            BorderMode::Degrade => {
                let corner = (x == 0 || x == sz - 1) && (y == 0 || y == sz - 1);
                let edge = x == 0 || x == sz - 1 || y == 0 || y == sz - 1;
                if corner {
                    2
                } else if edge {
                    3
                } else {
                    4
                }
            },
            _ => 4,
        },
    }
}

/// The level one below the threshold: one more piece makes the square explode.
pub fn crit_level(x: usize, y: usize, sz: usize, border_mode: BorderMode, cap_mode: CapMode) -> (r: u32)
    requires
        sz >= 1,
    ensures
        r == sp_cell_threshold(x, y, sz, border_mode, cap_mode) - 1,
        1 <= r <= 4,
{
    cell_threshold(x, y, sz, border_mode, cap_mode) - 1
}

/// The distance between two indices.
pub open spec fn absdiff(a: usize, b: usize) -> int {
    if a >= b { a - b } else { b - a }
}

/// The twelve squares at Manhattan distance one or two from `(fx, fy)`.
pub open spec fn sp_restricted(x: usize, y: usize, fx: usize, fy: usize) -> bool {
    1 <= absdiff(x, fx) + absdiff(y, fy) <= 2
}

/// Whether `(x, y)` lies in the twelve-square zone around a first move at `(fx, fy)`.
pub fn is_in_first_move_restricted(x: usize, y: usize, fx: usize, fy: usize) -> (r: bool)
    ensures
        r == sp_restricted(x, y, fx, fy),
{
    let dx = if x >= fx { x - fx } else { fx - x };
    let dy = if y >= fy { y - fy } else { fy - y };
    if dx == 2 && dy == 0 {
        return true;
    }
    if dx == 1 && dy <= 1 {
        return true;
    }
    if dx == 0 && dy >= 1 && dy <= 2 {
        return true;
    }
    false
}

/// Some piece on the board has `(x, y)` within its twelve-square zone.
pub open spec fn sp_in_any_zone(b: Seq<Seq<Cell>>, sz: usize, x: usize, y: usize) -> bool {
    exists|i: int, j: int|
        0 <= i < sz && 0 <= j < sz && (#[trigger] b[i][j]).owner is Some && sp_restricted(x, y, i as usize, j as usize)
}

/// Whether `(x, y)` lies in the zone of some piece on the board.
pub fn is_in_any_restricted_zone(board: &Vec<Vec<Cell>>, sz: usize, x: usize, y: usize) -> (r: bool)
    requires
        wf(bview(board), sz as int),
    ensures
        r == sp_in_any_zone(bview(board), sz, x, y),
{
    let mut i: usize = 0;
    while i < sz
        invariant
            wf(bview(board), sz as int),
            0 <= i <= sz,
            forall|a: int, c: int| 0 <= a < i && 0 <= c < sz ==>
                !((#[trigger] bview(board)[a][c]).owner is Some && sp_restricted(x, y, a as usize, c as usize)),
        decreases sz - i,
    {
        let mut j: usize = 0;
        while j < sz
            invariant
                wf(bview(board), sz as int),
                0 <= i < sz,
                0 <= j <= sz,
                forall|a: int, c: int| 0 <= a < i && 0 <= c < sz ==>
                    !((#[trigger] bview(board)[a][c]).owner is Some && sp_restricted(x, y, a as usize, c as usize)),
                forall|c: int| 0 <= c < j ==>
                    !((#[trigger] bview(board)[i as int][c]).owner is Some && sp_restricted(x, y, i, c as usize)),
            decreases sz - j,
        {
            assert(bview(board)[i as int] == board@[i as int]@);
            if board[i][j].owner.is_some() && is_in_first_move_restricted(x, y, i, j) {
                assert(bview(board)[i as int][j as int].owner is Some);
                return true;
            }
            j += 1;
        }
        i += 1;
    }
    false
}

/// Strict row-major order of squares.
pub open spec fn lex_lt(a: (usize, usize), b: (usize, usize)) -> bool {
    a.0 < b.0 || (a.0 == b.0 && a.1 < b.1)
}

/// A sequence of squares in strictly increasing row-major order.
pub open spec fn row_major(s: Seq<(usize, usize)>) -> bool {
    forall|a: int, b: int| 0 <= a < b < s.len() ==> lex_lt(#[trigger] s[a], #[trigger] s[b])
}

/// A square the player may play: with pieces on the board, one of its own squares
/// below its threshold; otherwise an empty square outside every piece's zone.
pub open spec fn legal_move(b: Seq<Seq<Cell>>, sz: usize, player: usize, bm: BorderMode, cm: CapMode, m: (usize, usize)) -> bool {
    &&& m.0 < sz && m.1 < sz
    &&& if owns_any(b, player) {
        &&& b[m.0 as int][m.1 as int].owner == Some(player)
        &&& (b[m.0 as int][m.1 as int].count as u32) < sp_cell_threshold(m.0, m.1, sz, bm, cm)
    } else {
        &&& b[m.0 as int][m.1 as int].owner is None
        &&& !sp_in_any_zone(b, sz, m.0, m.1)
    }
}

/// The legal moves of `player`, listed in row-major order.
pub open spec fn is_move_list(b: Seq<Seq<Cell>>, sz: usize, player: usize, bm: BorderMode, cm: CapMode, s: Seq<(usize, usize)>) -> bool {
    &&& row_major(s)
    &&& forall|k: int| 0 <= k < s.len() ==> legal_move(b, sz, player, bm, cm, #[trigger] s[k])
    &&& forall|m: (usize, usize)| legal_move(b, sz, player, bm, cm, m) ==> s.contains(m)
}

/// The legal moves of `player`: once it has pieces, its own squares below their threshold;
/// before that, the empty squares that lie in no piece's zone.
pub fn get_moves(
    board: &Vec<Vec<Cell>>,
    sz: usize,
    player: usize,
    _first_move_pos: Option<(usize, usize)>,
    border_mode: BorderMode,
    cap_mode: CapMode,
) -> (r: Vec<(usize, usize)>)
    requires
        wf(bview(board), sz as int),
    ensures
        is_move_list(bview(board), sz, player, border_mode, cap_mode, r@),
{
    let ghost b = bview(board);
    let has_p = has_pieces(board, player);
    let mut moves: Vec<(usize, usize)> = Vec::new();
    let mut i: usize = 0;
    while i < sz
        invariant
            b == bview(board),
            wf(b, sz as int),
            has_p == owns_any(b, player),
            0 <= i <= sz,
            row_major(moves@),
            forall|k: int| 0 <= k < moves@.len() ==> legal_move(b, sz, player, border_mode, cap_mode, #[trigger] moves@[k]),
            forall|k: int| 0 <= k < moves@.len() ==> (#[trigger] moves@[k]).0 < i,
            forall|m: (usize, usize)| legal_move(b, sz, player, border_mode, cap_mode, m) && m.0 < i ==> moves@.contains(m),
        decreases sz - i,
    {
        let mut j: usize = 0;
        while j < sz
            invariant
                b == bview(board),
                wf(b, sz as int),
                has_p == owns_any(b, player),
                0 <= i < sz,
                0 <= j <= sz,
                row_major(moves@),
                forall|k: int| 0 <= k < moves@.len() ==> legal_move(b, sz, player, border_mode, cap_mode, #[trigger] moves@[k]),
                forall|k: int| 0 <= k < moves@.len() ==> lex_lt(#[trigger] moves@[k], (i, j)),
                forall|m: (usize, usize)| legal_move(b, sz, player, border_mode, cap_mode, m) && lex_lt(m, (i, j)) ==> moves@.contains(m),
            decreases sz - j,
        {
            assert(b[i as int] == board@[i as int]@);
            let c = board[i][j];
            let ok = if has_p {
                c.owner == Some(player) && (c.count as u32) < cell_threshold(i, j, sz, border_mode, cap_mode)
            } else {
                c.owner.is_none() && !is_in_any_restricted_zone(board, sz, i, j)
            };
            let ghost old_moves = moves@;
            if ok {
                moves.push((i, j));
                assert forall|m: (usize, usize)| legal_move(b, sz, player, border_mode, cap_mode, m) && lex_lt(m, (i, (j + 1) as usize))
                    implies moves@.contains(m) by {
                    if m == (i, j) {
                        assert(moves@[old_moves.len() as int] == m);
                    } else {
                        assert(old_moves.contains(m));
                        let t = choose|t: int| 0 <= t < old_moves.len() && old_moves[t] == m;
                        assert(moves@[t] == m);
                    }
                }
            } else {
                assert(!legal_move(b, sz, player, border_mode, cap_mode, (i, j)));
            }
            j += 1;
        }
        i += 1;
    }
    moves
}

/// Under the degrade border with cap 4 a square explodes at as many pieces as it has
/// neighbours on the board: two in a corner, three on an edge, four inside.
pub proof fn lemma_degrade_threshold_is_neighbours(x: usize, y: usize, sz: usize)
    requires
        sz >= 2,
        x < sz,
        y < sz,
    ensures
        sp_cell_threshold(x, y, sz, BorderMode::Degrade, CapMode::Cap4) == sp_nbrs(x, y, sz).len(),
        sp_nbrs(x, y, sz).len() == 4 - (if x == 0 || x + 1 == sz { 1int } else { 0int }) - (if y == 0 || y + 1 == sz { 1int } else { 0int }),
{
}

} // verus!
