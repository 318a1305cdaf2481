//! The game state: roster, score grid (most recent round first) and standings.
use vstd::prelude::*;

verus! {

/// One player's entry for one round.
#[derive(Clone, Copy, Debug, PartialEq, Eq, Structural)]
pub struct Score {
    /// `None` while the score has not been entered yet.
    pub val: Option<i8>,
    /// Whether this cell is the one open for entry.
    pub is_editing: bool,
}

pub type Player = String;

/// A round: one cell per player, in roster order.
pub type Round = Vec<Score>;

/// Ranking of player positions, best first.
pub type Leaderboard = Vec<usize>;

/// Score that a cell contributes to a total: an unset cell adds nothing.
pub open spec fn cell_value(s: Score) -> int {
    match s.val {
        Some(v) => v as int,
        None => 0,
    }
}

/// Sum of column `p` over the given rounds.
pub open spec fn column_sum(rounds: Seq<Round>, p: int) -> int
    decreases rounds.len(),
{
    if rounds.len() == 0 {
        0
    } else {
        cell_value(rounds[0]@[p]) + column_sum(rounds.drop_first(), p)
    }
}

pub struct State {
    pub players: Vec<Player>,
    /// Rounds, the most recent first.
    pub scores: Vec<Round>,
    pub is_in_progress: bool,
    /// The game ends when one player alone leads with at least this total.
    pub first_to: u8,
    /// Lower end of the score range used for display colouring.
    pub negative_size: u8,
    /// Width of the score range used for display colouring.
    pub deck_size: u8,
}

impl State {
    /// Cell of round `r` (0 is the most recent) for player `p`.
    pub open spec fn cell(&self, r: int, p: int) -> Score {
        self.scores@[r]@[p]
    }

    pub open spec fn valid_cell(&self, r: int, p: int) -> bool {
        0 <= r < self.scores@.len() && 0 <= p < self.players@.len()
    }

    /// Every round has one cell per player.
    pub open spec fn rounds_fit(&self) -> bool {
        forall|r: int| 0 <= r < self.scores@.len() ==> #[trigger] self.scores@[r]@.len()
            == self.players@.len()
    }

    /// At most one cell of the whole grid is open for entry.
    pub open spec fn at_most_one_editing(&self) -> bool {
        forall|r1: int, p1: int, r2: int, p2: int|
            self.valid_cell(r1, p1) && self.valid_cell(r2, p2) && #[trigger] self.cell(
                r1,
                p1,
            ).is_editing && #[trigger] self.cell(r2, p2).is_editing ==> r1 == r2 && p1 == p2
    }

    pub open spec fn wf(&self) -> bool {
        self.rounds_fit() && self.at_most_one_editing()
    }

    /// Cumulative score of player `p`.
    pub open spec fn total(&self, p: int) -> int {
        column_sum(self.scores@, p)
    }

    /// No cell of the grid is still unset.
    pub open spec fn all_filled(&self) -> bool {
        forall|r: int, p: int| self.valid_cell(r, p) ==> (#[trigger] self.cell(r, p)).val is Some
    }

    /// Player `w` alone has the highest total, and that total reaches the target.
    pub open spec fn sole_winner(&self, w: int) -> bool {
        &&& 0 <= w < self.players@.len()
        &&& self.total(w) >= self.first_to as int
        &&& forall|q: int| 0 <= q < self.players@.len() && q != w ==> #[trigger] self.total(q) < self.total(w)
    }

    /// The game is over once every cell is filled and one player alone leads
    /// with at least the target score; a tie at the top plays on.
    pub open spec fn game_over(&self) -> bool {
        &&& self.players@.len() > 0
        &&& self.all_filled()
        &&& exists|w: int| self.sole_winner(w)
    }

    /// Player `x` ranks ahead of player `y`: a higher total, or an equal total
    /// and an earlier roster position.
    pub open spec fn ranks_before(&self, x: int, y: int) -> bool {
        self.total(x) > self.total(y) || (self.total(x) == self.total(y) && x < y)
    }

    /// `lb` lists every player exactly once, best first, equal totals in roster order.
    pub open spec fn is_leaderboard(&self, lb: Seq<usize>) -> bool {
        &&& lb.len() == self.players@.len()
        &&& forall|k: int| 0 <= k < lb.len() ==> #[trigger] lb[k] < self.players@.len()
        &&& forall|p: usize| p < self.players@.len() ==> #[trigger] lb.contains(p)
        &&& forall|a: int, b: int|
            0 <= a < b < lb.len() ==> self.ranks_before(#[trigger] lb[a] as int, #[trigger] lb[b] as int)
    }

    /// A fresh game in setup: no players, no rounds, target 100.
    pub fn new() -> (r: Self)
        ensures
            r.players@.len() == 0,
            r.scores@.len() == 0,
            !r.is_in_progress,
            r.first_to == 100,
            r.negative_size == 13,
            r.deck_size == 52,
            r.wf(),
    {
        State {
            players: Vec::new(),
            scores: Vec::new(),
            is_in_progress: false,
            first_to: 100,
            negative_size: 13,
            deck_size: 52,
        }
    }

    /// Total of player `idx` over all rounds; unset cells are skipped.
    pub fn player_sum(&self, idx: usize) -> (r: i128)
        requires
            self.rounds_fit(),
            idx < self.players@.len(),
        ensures
            r == self.total(idx as int),
    {
        let n = self.scores.len();
        let mut sum: i128 = 0;
        let mut i: usize = n;
        while i > 0
            invariant
                self.rounds_fit(),
                idx < self.players@.len(),
                n == self.scores@.len(),
                i <= n,
                sum == column_sum(self.scores@.subrange(i as int, n as int), idx as int),
                -128 * (n - i) <= sum <= 127 * (n - i),
            decreases i,
        {
            i = i - 1;
            assert(self.scores@.subrange(i as int, n as int).drop_first() =~= self.scores@.subrange(
                i as int + 1,
                n as int,
            ));
            assert(self.scores@[i as int]@.len() == self.players@.len());
            if let Some(v) = self.scores[i][idx].val {
                sum = sum + v as i128;
            }
        }
        assert(self.scores@.subrange(0, n as int) =~= self.scores@);
        sum
    }

    /// Whether some cell of the grid is still unset.
    fn has_empty_cell(&self) -> (r: bool)
        requires
            self.rounds_fit(),
        ensures
            r == !self.all_filled(),
    {
        let n = self.players.len();
        let mut i: usize = 0;
        while i < self.scores.len()
            invariant
                self.rounds_fit(),
                n == self.players@.len(),
                i <= self.scores@.len(),
                forall|r: int, p: int| 0 <= r < i && 0 <= p < n ==> (#[trigger] self.cell(r, p)).val is Some,
            decreases self.scores@.len() - i,
        {
            let mut j: usize = 0;
            while j < n
                invariant
                    self.rounds_fit(),
                    n == self.players@.len(),
                    i < self.scores@.len(),
                    j <= n,
                    forall|p: int| 0 <= p < j ==> (#[trigger] self.cell(i as int, p)).val is Some,
                decreases n - j,
            {
                if self.scores[i][j].val.is_none() {
                    assert(self.valid_cell(i as int, j as int) && self.cell(i as int, j as int).val is None);
                    return true;
                }
                j = j + 1;
            }
            i = i + 1;
        }
        false
    }

    /// Totals of all players, in roster order.
    pub fn totals(&self) -> (r: Vec<i128>)
        requires
            self.rounds_fit(),
        ensures
            r@.len() == self.players@.len(),
            forall|p: int| 0 <= p < r@.len() ==> #[trigger] r@[p] == self.total(p),
    {
        let mut out: Vec<i128> = Vec::new();
        let mut p: usize = 0;
        while p < self.players.len()
            invariant
                self.rounds_fit(),
                p <= self.players@.len(),
                out@.len() == p,
                forall|q: int| 0 <= q < p ==> #[trigger] out@[q] == self.total(q),
            decreases self.players@.len() - p,
        {
            let t = self.player_sum(p);
            out.push(t);
            p = p + 1;
        }
        out
    }

    /// Whether the game has ended: every cell is filled and exactly one player
    /// holds the highest total, which reaches `first_to`.
    pub fn is_game_over(&self) -> (r: bool)
        requires
            self.rounds_fit(),
        ensures
            r == self.game_over(),
    {
        if self.has_empty_cell() {
            return false;
        }
        let totals = self.totals();
        let n = totals.len();
        if n == 0 {
            return false;
        }
        let mut best: usize = 0;
        let mut tied = false;
        let mut i: usize = 1;
        while i < n
            invariant
                n == totals@.len(),
                n == self.players@.len(),
                forall|p: int| 0 <= p < n ==> #[trigger] totals@[p] == self.total(p),
                1 <= i <= n,
                best < i,
                forall|q: int| 0 <= q < i ==> #[trigger] self.total(q) <= self.total(best as int),
                tied == exists|q: int| 0 <= q < i && q != best && #[trigger] self.total(q) == self.total(best as int),
            decreases n - i,
        {
            let t = totals[i];
            if t > totals[best] {
                best = i;
                tied = false;
            } else if t == totals[best] {
                tied = true;
            }
            i = i + 1;
        }
        let reached = totals[best] >= self.first_to as i128;
        let r = reached && !tied;
        proof {
            if r {
                assert(self.sole_winner(best as int));
            } else if self.game_over() {
                let w = choose|w: int| self.sole_winner(w);
                if w != best as int {
                    assert(self.total(best as int) < self.total(w));
                }
                assert(w == best as int);
                if tied {
                    let q = choose|q: int| 0 <= q < n && q != best && #[trigger] self.total(q) == self.total(best as int);
                    assert(self.total(q) < self.total(w));
                }
            }
        }
        r
    }

    /// Players ordered by total, highest first; equal totals keep roster order.
    pub fn get_leader_board(&self) -> (r: Leaderboard)
        requires
            self.rounds_fit(),
        ensures
            self.is_leaderboard(r@),
    {
        let totals = self.totals();
        let n = totals.len();
        let mut lb: Vec<usize> = Vec::new();
        let mut i: usize = 0;
        while i < n
            invariant
                n == totals@.len(),
                n == self.players@.len(),
                forall|p: int| 0 <= p < n ==> #[trigger] totals@[p] == self.total(p),
                i <= n,
                lb@.len() == i,
                forall|k: int| 0 <= k < lb@.len() ==> #[trigger] lb@[k] < i,
                forall|p: usize| p < i ==> #[trigger] lb@.contains(p),
                forall|a: int, b: int|
                    0 <= a < b < lb@.len() ==> self.ranks_before(#[trigger] lb@[a] as int, #[trigger] lb@[b] as int),
            decreases n - i,
        {
            let t = totals[i];
            let mut j: usize = 0;
            while j < lb.len() && totals[lb[j]] >= t
                invariant
                    n == totals@.len(),
                    forall|p: int| 0 <= p < n ==> #[trigger] totals@[p] == self.total(p),
                    i < n,
                    t == self.total(i as int),
                    j <= lb@.len(),
                    forall|k: int| 0 <= k < lb@.len() ==> #[trigger] lb@[k] < i,
                    forall|a: int| 0 <= a < j ==> self.total(#[trigger] lb@[a] as int) >= t,
                decreases lb@.len() - j,
            {
                j = j + 1;
            }
            proof {
                assert forall|a: int| j <= a < lb@.len() implies self.total(#[trigger] lb@[a] as int) < t by {
                    if j < a {
                        assert(self.ranks_before(lb@[j as int] as int, lb@[a] as int));
                    }
                }
            }
            let ghost old_lb = lb@;
            lb.insert(j, i);
            proof {
                assert(lb@ == old_lb.insert(j as int, i));
                assert forall|p: usize| p < i + 1 implies #[trigger] lb@.contains(p) by {
                    if p == i {
                        assert(lb@[j as int] == i);
                    } else {
                        assert(old_lb.contains(p));
                        let k = choose|k: int| 0 <= k < old_lb.len() && old_lb[k] == p;
                        if k < j {
                            assert(lb@[k] == p);
                        } else {
                            assert(lb@[k + 1] == p);
                        }
                    }
                }
                assert forall|a: int, b: int|
                    0 <= a < b < lb@.len() implies self.ranks_before(#[trigger] lb@[a] as int, #[trigger] lb@[b] as int) by {
                    if b < j {
                        assert(lb@[a] == old_lb[a] && lb@[b] == old_lb[b]);
                    } else if b == j {
                        assert(lb@[a] == old_lb[a]);
                    } else if a < j {
                        assert(lb@[a] == old_lb[a] && lb@[b] == old_lb[b - 1]);
                    } else if a == j {
                        assert(lb@[b] == old_lb[b - 1]);
                    } else {
                        assert(lb@[a] == old_lb[a - 1] && lb@[b] == old_lb[b - 1]);
                    }
                }
            }
            i = i + 1;
        }
        lb
    }
}

/// When the game is over: never while a cell is unset, never while two
/// players share the highest total, and always once every cell is filled and
/// one player alone holds the highest total, at least the target.
pub proof fn lemma_game_over_rules(s: State, a: int, b: int)
    ensures
        !s.all_filled() ==> !s.game_over(),
        0 <= a < s.players@.len() && 0 <= b < s.players@.len() && a != b && s.total(a) == s.total(b) && (
        forall|q: int| 0 <= q < s.players@.len() ==> #[trigger] s.total(q) <= s.total(a)) ==> !s.game_over(),
        s.all_filled() && s.sole_winner(a) ==> s.game_over(),
{
    if 0 <= a < s.players@.len() && 0 <= b < s.players@.len() && a != b && s.total(a) == s.total(b) && (
    forall|q: int| 0 <= q < s.players@.len() ==> #[trigger] s.total(q) <= s.total(a)) && s.game_over() {
        let w = choose|w: int| s.sole_winner(w);
        if w != a {
            assert(s.total(a) < s.total(w));
        } else {
            assert(s.total(b) < s.total(w));
        }
    }
}

} // verus!
