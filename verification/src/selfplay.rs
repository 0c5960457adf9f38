use crate::board::{bview, get_moves, legal_move, wf, BorderMode, CapMode, Cell};
use crate::chain::{click_ok, click_result_any, process_click};
use crate::rng::{rng_thread, thread_below_usize};
use crate::setup::{build_board, empty_board};
use crate::sim::{
    add_missing, add_new_players, alive_players, alive_seq, first_of, next_in, next_player_in, not_out_players,
    not_out_seq,
};
use vstd::prelude::*;

verus! {

/// A game a program plays against itself to produce training records: the board,
/// the players out, the player to move and the number of the turn.
pub struct SelfPlay {
    pub board: Vec<Vec<Cell>>,
    pub size: usize,
    pub max_players: usize,
    pub eliminated: Vec<usize>,
    pub cur: usize,
    pub turn: u32,
}

/// What a self-play game needs next.
pub enum SelfPlayAction {
    /// A move of this player, chosen among these legal moves.
    Ask(usize, Vec<(usize, usize)>),
    /// The player to move had no move; the turn went on to the next player not out.
    Pass,
    /// The player to move had no move and at most one player is not out.
    Finished,
}

/// One played turn as the training records keep it.
pub struct StepRecord {
    pub turn: u32,
    pub cur_player: usize,
    pub move_x: usize,
    pub move_y: usize,
    /// The players with pieces and not out before the move.
    pub live_players: Vec<usize>,
    /// The players out after the move, in the order they went out.
    pub eliminated: Vec<usize>,
    pub winner: Option<usize>,
    pub game_over: bool,
}

impl SelfPlay {
    /// A new game on an empty board of `size` squares a side: player 0 to move, no
    /// player out, turn 0.
    pub fn start(size: usize, max_players: usize) -> (r: SelfPlay)
        ensures
            wf(bview(&r.board), size as int),
            bview(&r.board) == empty_board(size),
            r.size == size,
            r.max_players == max_players,
            r.eliminated@.len() == 0,
            r.cur == 0,
            r.turn == 0,
    {
        SelfPlay { board: build_board(size), size, max_players, eliminated: Vec::new(), cur: 0, turn: 0 }
    }

    /// Starts a turn. A player with legal moves is asked for one; a player without
    /// passes the turn to the next player not out, unless at most one player is not
    /// out, which ends the game.
    pub fn next(&mut self, border_mode: BorderMode, cap_mode: CapMode) -> (act: SelfPlayAction)
        requires
            wf(bview(&old(self).board), old(self).size as int),
        ensures
            final(self).board == old(self).board,
            final(self).size == old(self).size,
            final(self).max_players == old(self).max_players,
            final(self).eliminated == old(self).eliminated,
            final(self).turn == old(self).turn,
            ({
                let b = bview(&old(self).board);
                let none = forall|m: (usize, usize)| !legal_move(b, old(self).size, old(self).cur, border_mode, cap_mode, m);
                let not_out = not_out_seq(old(self).eliminated@, old(self).max_players as nat);
                match act {
                    SelfPlayAction::Ask(p, ms) => {
                        &&& p == old(self).cur
                        &&& final(self).cur == old(self).cur
                        &&& ms@.len() > 0
                        &&& crate::board::is_move_list(b, old(self).size, p, border_mode, cap_mode, ms@)
                    },
                    SelfPlayAction::Pass => {
                        &&& none
                        &&& not_out.len() > 1
                        &&& final(self).cur == next_in(not_out, old(self).cur)
                    },
                    SelfPlayAction::Finished => {
                        &&& none
                        &&& not_out.len() <= 1
                        &&& final(self).cur == old(self).cur
                    },
                }
            }),
    {
        let legal = get_moves(&self.board, self.size, self.cur, None, border_mode, cap_mode);
        if legal.len() > 0 {
            return SelfPlayAction::Ask(self.cur, legal);
        }
        proof {
            let b = bview(&self.board);
            assert forall|m: (usize, usize)| !legal_move(b, self.size, self.cur, border_mode, cap_mode, m) by {
                if legal_move(b, self.size, self.cur, border_mode, cap_mode, m) {
                    assert(legal@.contains(m));
                }
            }
        }
        let not_out = not_out_players(&self.eliminated, self.max_players);
        if not_out.len() <= 1 {
            return SelfPlayAction::Finished;
        }
        self.cur = next_player_in(&not_out, self.cur);
        SelfPlayAction::Pass
    }

    /// The move to play: the one the program chose, or else one of the legal moves
    /// drawn at random.
    pub fn pick(chosen: Option<(usize, usize)>, legal: &Vec<(usize, usize)>) -> (r: (usize, usize))
        requires
            legal@.len() > 0,
        ensures
            chosen matches Some(m) ==> r == m,
            chosen is None ==> legal@.contains(r),
    {
        match chosen {
            Some(m) => m,
            None => {
                let mut rng = rng_thread();
                let k = thread_below_usize(&mut rng, legal.len());
                assert(legal@[k as int] == legal[k as int]);
                legal[k]
            },
        }
    }

    /// Plays the move of the player to move (the chain's random events come from the
    /// system) and reports the turn: the players live before it, the players out after
    /// it, and whether the game is over, which it is once at most one player is not
    /// out (the winner being that player). Unless the game is over the turn goes to
    /// the next player not out.
    pub fn apply(&mut self, mx: usize, my: usize, border_mode: BorderMode, cap_mode: CapMode) -> (rec: StepRecord)
        requires
            click_ok(bview(&old(self).board), old(self).size, mx, my, old(self).cur),
            old(self).turn < u32::MAX,
        ensures
            wf(bview(&final(self).board), final(self).size as int),
            final(self).size == old(self).size,
            final(self).max_players == old(self).max_players,
            exists|el: Seq<usize>, cc: u32| {
                &&& #[trigger] click_result_any(
                    bview(&old(self).board),
                    bview(&final(self).board),
                    old(self).size,
                    mx,
                    my,
                    old(self).cur,
                    border_mode,
                    cap_mode,
                    el,
                    cc,
                )
                &&& final(self).eliminated@ == add_missing(old(self).eliminated@, el, el.len())
            },
            rec.turn == old(self).turn,
            rec.cur_player == old(self).cur,
            rec.move_x == mx,
            rec.move_y == my,
            rec.live_players@ == alive_seq(bview(&old(self).board), old(self).eliminated@, old(self).max_players as nat),
            rec.eliminated@ == final(self).eliminated@,
            rec.game_over == (not_out_seq(final(self).eliminated@, old(self).max_players as nat).len() <= 1),
            rec.winner == if rec.game_over {
                first_of(not_out_seq(final(self).eliminated@, old(self).max_players as nat))
            } else {
                None
            },
            rec.game_over ==> final(self).cur == old(self).cur && final(self).turn == old(self).turn,
            !rec.game_over ==> final(self).cur == next_in(
                not_out_seq(final(self).eliminated@, old(self).max_players as nat),
                old(self).cur,
            ) && final(self).turn == old(self).turn + 1,
    {
        let cur = self.cur;
        let ghost b0 = bview(&self.board);
        let ghost e0 = self.eliminated@;
        let live_before = alive_players(&self.board, &self.eliminated, self.max_players);
        let (new_elim, chain_count) = process_click(
            &mut self.board,
            self.size,
            mx,
            my,
            cur,
            self.max_players,
            border_mode,
            cap_mode,
            None,
        );
        add_new_players(&mut self.eliminated, &new_elim);
        assert(click_result_any(b0, bview(&self.board), self.size, mx, my, cur, border_mode, cap_mode, new_elim@, chain_count));
        assert(self.eliminated@ == add_missing(e0, new_elim@, new_elim@.len()));
        let alive_now = not_out_players(&self.eliminated, self.max_players);
        let game_over = alive_now.len() <= 1;
        let winner = if game_over {
            if alive_now.len() > 0 { Some(alive_now[0]) } else { None }
        } else {
            None
        };
        let turn = self.turn;
        if !game_over {
            self.cur = next_player_in(&alive_now, cur);
            self.turn = turn + 1;
        }
        assert(exists|el: Seq<usize>, cc: u32| {
            &&& #[trigger] click_result_any(b0, bview(&self.board), self.size, mx, my, cur, border_mode, cap_mode, el, cc)
            &&& self.eliminated@ == add_missing(e0, el, el.len())
        }) by {
            assert(click_result_any(b0, bview(&self.board), self.size, mx, my, cur, border_mode, cap_mode, new_elim@, chain_count));
        }
        StepRecord {
            turn,
            cur_player: cur,
            move_x: mx,
            move_y: my,
            live_players: live_before,
            eliminated: self.eliminated.clone(),
            winner,
            game_over,
        }
    }
}

} // verus!
