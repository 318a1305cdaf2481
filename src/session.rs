//! The game session: messages from the user interface, the transition each
//! one makes, and the leaderboard kept beside the state.
use vstd::prelude::*;

use crate::roster::{lemma_added_player_keeps_wf, lemma_removed_player_keeps_wf, unique_prefix};
use crate::state::{Leaderboard, Player, State};

verus! {

/// What the user interface asks of the session.
pub enum AppMsg {
    /// Enter a score in cell `(round, player)`.
    ScoreEnter(usize, usize, i8),
    /// Open cell `(round, player)` to correct it.
    ScoreEdit(usize, usize),
    /// Back to setup, keeping the roster.
    GameNew,
    /// Leave setup and open the first round.
    GameStart,
    PlayerAdd(Player),
    PlayerRemove(usize),
}

/// Decimal digit `d` (below ten) as a character.
pub open spec fn digit_char(d: nat) -> char {
    if d == 0 { '0' } else if d == 1 { '1' } else if d == 2 { '2' } else if d == 3 { '3' } else if d == 4 {
        '4'
    } else if d == 5 { '5' } else if d == 6 { '6' } else if d == 7 { '7' } else if d == 8 { '8' } else { '9' }
}

/// Decimal form of `n`: its digits, most significant first, without padding.
pub open spec fn decimal(n: nat) -> Seq<char>
    decreases n,
{
    if n < 10 {
        seq![digit_char(n)]
    } else {
        decimal(n / 10).push(digit_char(n % 10))
    }
}

/// Text naming cell `(round, player)`: both positions in decimal, joined by `_`.
pub open spec fn cell_key_text(round: nat, player: nat) -> Seq<char> {
    decimal(round) + seq!['_'] + decimal(player)
}

/// Relies on `format!` with `Display` for `usize`, which writes the decimal
/// digits of the number, most significant first, with no sign or padding.
#[verifier::external_body]
fn cell_key(round: usize, player: usize) -> (r: String)
    ensures
        r@ == cell_key_text(round as nat, player as nat),
{
    format!("{}_{}", round, player)
}

impl State {
    /// `self` is `before` in play, its rounds behind a fresh first round.
    pub open spec fn started_from(&self, before: &State) -> bool {
        &&& self.wf()
        &&& self.is_in_progress
        &&& self.players@ == before.players@
        &&& self.first_to == before.first_to
        &&& self.negative_size == before.negative_size
        &&& self.deck_size == before.deck_size
        &&& self.fresh_round_in_front(before)
    }

    /// `self` is a fresh game in setup with the roster of `before`.
    pub open spec fn reset_from(&self, before: &State) -> bool {
        &&& self.players@ == before.players@
        &&& self.scores@.len() == 0
        &&& !self.is_in_progress
        &&& self.first_to == 100
        &&& self.negative_size == 13
        &&& self.deck_size == 52
    }

    /// What `msg` does to the state `before`.
    pub open spec fn step(before: State, msg: AppMsg, after: State) -> bool {
        match msg {
            AppMsg::ScoreEnter(r, p, v) => after.entered_score(&before, r as int, p as int, v),
            AppMsg::ScoreEdit(r, p) => after.selected_cell(&before, r as int, p as int),
            AppMsg::GameNew => after.reset_from(&before),
            AppMsg::GameStart => after.started_from(&before),
            AppMsg::PlayerAdd(name) => after.added_player(&before, name),
            AppMsg::PlayerRemove(i) => after.removed_player(&before, i as int),
        }
    }

    /// Marks the game as in play and opens its first round.
    pub fn start_game(&mut self)
        requires
            old(self).rounds_fit(),
        ensures
            final(self).started_from(old(self)),
    {
        self.is_in_progress = true;
        self.next_round();
    }

    /// A fresh game in setup that keeps the roster.
    pub fn new_game(&mut self)
        ensures
            final(self).reset_from(old(self)),
            final(self).wf(),
    {
        let mut fresh = State::new();
        std::mem::swap(&mut fresh.players, &mut self.players);
        *self = fresh;
    }
}

/// Every message keeps the grid well formed: in particular at most one cell
/// is ever open for entry.
pub proof fn lemma_step_keeps_single_focus(before: State, msg: AppMsg, after: State)
    requires
        before.wf(),
        State::step(before, msg, after),
    ensures
        after.wf(),
        after.at_most_one_editing(),
{
    match msg {
        AppMsg::PlayerAdd(name) => lemma_added_player_keeps_wf(after, before, name),
        AppMsg::PlayerRemove(i) => lemma_removed_player_keeps_wf(after, before, i as int),
        _ => {},
    }
}

/// A game session: the state, and its leaderboard kept up to date.
pub struct App {
    pub state: State,
    pub leaderboard: Leaderboard,
}

impl App {
    /// The state is well formed and the leaderboard is the one its totals give.
    pub open spec fn wf(&self) -> bool {
        self.state.wf() && self.state.is_leaderboard(self.leaderboard@)
    }

    /// A session over `state`, with its leaderboard.
    pub fn from_state(state: State) -> (r: App)
        requires
            state.wf(),
        ensures
            r.wf(),
            r.state == state,
    {
        let leaderboard = state.get_leader_board();
        App { state, leaderboard }
    }

    /// Applies `msg` and recomputes the leaderboard; the display is always
    /// to be refreshed afterwards.
    pub fn update(&mut self, msg: AppMsg) -> (r: bool)
        requires
            old(self).wf(),
            msg matches AppMsg::ScoreEnter(round, player, _) ==> old(self).state.valid_cell(
                round as int,
                player as int,
            ),
        ensures
            final(self).wf(),
            State::step(old(self).state, msg, final(self).state),
            r,
    {
        match msg {
            AppMsg::ScoreEnter(round, player, score) => self.state.enter_score(round, player, score),
            AppMsg::ScoreEdit(round, player) => self.state.select_cell(round, player),
            AppMsg::GameNew => self.state.new_game(),
            AppMsg::GameStart => self.state.start_game(),
            AppMsg::PlayerAdd(name) => self.state.add_player(name),
            AppMsg::PlayerRemove(idx) => self.state.remove_player(idx),
        }
        self.leaderboard = self.state.get_leader_board();
        true
    }

    /// Name of the cell open for entry, `"<round>_<player>"`; `"0_0"` when
    /// no cell is open.
    pub fn get_focused(&self) -> (r: String)
        requires
            self.wf(),
        ensures
            exists|a: usize, b: usize|
                r@ == cell_key_text(a as nat, b as nat) && {
                    ||| self.state.editing_only(a as int, b as int)
                    ||| (a == 0 && b == 0 && self.state.no_editing())
                },
    {
        let (round, player) = self.state.focused_cell();
        let r = cell_key(round, player);
        proof {
            if !(exists|a: int, b: int| self.state.valid_cell(a, b) && self.state.cell(a, b).is_editing) {
                assert(self.state.no_editing());
            }
        }
        r
    }

    /// The shortest case-insensitive prefix of the name of player `idx` that
    /// tells it apart from every other name.
    pub fn find_unique_prefix(&self, idx: usize) -> (r: String)
        requires
            idx < self.state.players@.len(),
        ensures
            r@ == crate::roster::unique_prefix_of(self.state.players@, idx as int),
    {
        unique_prefix(&self.state.players, idx)
    }
}

} // verus!
