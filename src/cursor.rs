//! Round creation and the edit cursor: which cell of the grid is open for entry.
use vstd::prelude::*;

use crate::state::{cell_value, column_sum, Round, Score, State};

verus! {

/// Two rounds hold the same entered values, cell by cell.
pub open spec fn same_values(a: Seq<Round>, b: Seq<Round>) -> bool {
    &&& a.len() == b.len()
    &&& forall|r: int| 0 <= r < a.len() ==> (#[trigger] a[r])@.len() == b[r]@.len()
    &&& forall|r: int, p: int|
        0 <= r < a.len() && 0 <= p < a[r]@.len() ==> (#[trigger] a[r]@[p]).val == b[r]@[p].val
}

/// `a` is `b` with the value `v` entered in cell `(r, p)`.
pub open spec fn entered_values(a: Seq<Round>, b: Seq<Round>, r: int, p: int, v: i8) -> bool {
    &&& a.len() == b.len()
    &&& forall|r2: int| 0 <= r2 < a.len() ==> (#[trigger] a[r2])@.len() == b[r2]@.len()
    &&& forall|r2: int, p2: int|
        0 <= r2 < a.len() && 0 <= p2 < a[r2]@.len() && (r2 != r || p2 != p) ==> (#[trigger] a[r2]@[p2]).val
            == b[r2]@[p2].val
    &&& a[r]@[p].val == Some(v)
}

/// Totals depend on entered values only.
pub proof fn lemma_same_values_same_sum(a: Seq<Round>, b: Seq<Round>, p: int)
    requires
        same_values(a, b),
        forall|r: int| 0 <= r < a.len() ==> 0 <= p < (#[trigger] a[r])@.len(),
    ensures
        column_sum(a, p) == column_sum(b, p),
    decreases a.len(),
{
    if a.len() > 0 {
        assert(a[0]@[p].val == b[0]@[p].val);
        assert forall|r: int| 0 <= r < a.drop_first().len() implies 0 <= p < (#[trigger] a.drop_first()[r])@.len() by {
            assert(a.drop_first()[r] == a[r + 1]);
        }
        assert(same_values(a.drop_first(), b.drop_first())) by {
            assert forall|r: int, q: int|
                0 <= r < a.drop_first().len() && 0 <= q < a.drop_first()[r]@.len() implies (#[trigger] a.drop_first()[r]@[q]).val
                == b.drop_first()[r]@[q].val by {
                assert(a[r + 1]@[q].val == b[r + 1]@[q].val);
            }
        }
        lemma_same_values_same_sum(a.drop_first(), b.drop_first(), p);
    }
}

/// A round of unset cells put in front leaves every total as it was.
pub proof fn lemma_empty_round_keeps_totals(after: State, before: State, p: int)
    requires
        after.prepends_empty_round(&before),
        before.rounds_fit(),
        0 <= p < before.players@.len(),
    ensures
        after.total(p) == before.total(p),
{
    let rest = after.scores@.drop_first();
    assert forall|r: int| 0 <= r < rest.len() implies 0 <= p < (#[trigger] rest[r])@.len() by {
        assert(before.scores@[r]@.len() == before.players@.len());
    }
    lemma_same_values_same_sum(rest, before.scores@, p);
    assert(after.cell(0, p).val is None);
    assert(cell_value(after.scores@[0]@[p]) == 0);
}

impl State {
    /// Same roster and settings as `o`.
    pub open spec fn same_setup(&self, o: &State) -> bool {
        &&& self.players@ == o.players@
        &&& self.is_in_progress == o.is_in_progress
        &&& self.first_to == o.first_to
        &&& self.negative_size == o.negative_size
        &&& self.deck_size == o.deck_size
    }

    /// No cell is open for entry.
    pub open spec fn no_editing(&self) -> bool {
        forall|r: int, p: int| self.valid_cell(r, p) ==> !(#[trigger] self.cell(r, p)).is_editing
    }

    /// Only cell `(r, p)` is open for entry.
    pub open spec fn editing_only(&self, r: int, p: int) -> bool {
        &&& self.valid_cell(r, p)
        &&& self.cell(r, p).is_editing
        &&& forall|r2: int, p2: int|
            self.valid_cell(r2, p2) && #[trigger] self.cell(r2, p2).is_editing ==> r2 == r && p2 == p
    }

    /// Cell `(r2, p2)` comes before `(r, p)` in the search for the next cell
    /// to fill: rounds from the most recent, players in roster order.
    pub open spec fn searched_before(r2: int, p2: int, r: int, p: int) -> bool {
        r2 < r || (r2 == r && p2 < p)
    }

    /// `(r, p)` is the first unset cell in search order.
    pub open spec fn first_empty(&self, r: int, p: int) -> bool {
        &&& self.valid_cell(r, p)
        &&& self.cell(r, p).val is None
        &&& forall|r2: int, p2: int|
            self.valid_cell(r2, p2) && Self::searched_before(r2, p2, r, p) ==> (#[trigger] self.cell(
                r2,
                p2,
            )).val is Some
    }

    /// `self` is `o` with a fresh round of unset cells put in front, its first
    /// cell open for entry and no other.
    pub open spec fn prepends_empty_round(&self, o: &State) -> bool {
        &&& self.same_setup(o)
        &&& self.fresh_round_in_front(o)
    }

    /// The rounds of `self` are those of `o`, closed, behind a fresh round of
    /// unset cells whose first cell alone is open.
    pub open spec fn fresh_round_in_front(&self, o: &State) -> bool {
        &&& self.scores@.len() == o.scores@.len() + 1
        &&& same_values(self.scores@.drop_first(), o.scores@)
        &&& self.scores@[0]@.len() == self.players@.len()
        &&& forall|p: int|
            0 <= p < self.players@.len() ==> (#[trigger] self.cell(0, p)).val is None
                && self.cell(0, p).is_editing == (p == 0)
        &&& forall|r: int, p: int| 1 <= r && self.valid_cell(r, p) ==> !(#[trigger] self.cell(r, p)).is_editing
    }

    /// The outcome of entering `value` in cell `(round, player)` of `before`:
    /// the value is in place and the cell closed; the cursor is on the first
    /// unset cell; when every cell is filled, a fresh round is put in front
    /// with its first cell open while the game goes on, and no cell is open
    /// once it is over.
    pub open spec fn entered_score(&self, before: &State, round: int, player: int, value: i8) -> bool {
        &&& self.wf()
        &&& self.same_setup(before)
        &&& self.scores@.len() == before.scores@.len() || self.scores@.len() == before.scores@.len() + 1
        &&& self.scores@.len() == before.scores@.len() ==> {
            &&& entered_values(self.scores@, before.scores@, round, player, value)
            &&& self.all_filled() ==> self.game_over() && self.no_editing()
            &&& !self.all_filled() ==> exists|r: int, p: int| self.first_empty(r, p) && self.editing_only(r, p)
        }
        &&& self.scores@.len() == before.scores@.len() + 1 ==> {
            &&& entered_values(self.scores@.drop_first(), before.scores@, round, player, value)
            &&& forall|r: int, p: int|
                1 <= r && self.valid_cell(r, p) ==> (#[trigger] self.cell(r, p)).val is Some
            &&& !(exists|w: int| self.sole_winner(w))
            &&& forall|p: int| 0 <= p < self.players@.len() ==> (#[trigger] self.cell(0, p)).val is None
            &&& self.editing_only(0, 0)
        }
        &&& self.cell(round + self.scores@.len() - before.scores@.len(), player) == (Score {
            val: Some(value),
            is_editing: false,
        })
    }

    /// The outcome of asking to edit cell `(round, player)` of `before`: values
    /// stay; that cell alone is open, or none when it is not in the grid.
    pub open spec fn selected_cell(&self, before: &State, round: int, player: int) -> bool {
        &&& self.wf()
        &&& self.same_setup(before)
        &&& same_values(self.scores@, before.scores@)
        &&& before.valid_cell(round, player) ==> self.editing_only(round, player)
        &&& !before.valid_cell(round, player) ==> self.no_editing()
    }

    /// A copy of round `r` with every cell closed for entry.
    fn closed_round(&self, r: usize) -> (out: Round)
        requires
            r < self.scores@.len(),
        ensures
            out@.len() == self.scores@[r as int]@.len(),
            forall|p: int| 0 <= p < out@.len() ==> (#[trigger] out@[p]).val == self.scores@[r as int]@[p].val
                && !out@[p].is_editing,
    {
        let row = &self.scores[r];
        let mut out: Round = Vec::new();
        let mut j: usize = 0;
        while j < row.len()
            invariant
                j <= row@.len(),
                out@.len() == j,
                forall|p: int| 0 <= p < j ==> (#[trigger] out@[p]).val == row@[p].val && !out@[p].is_editing,
            decreases row@.len() - j,
        {
            out.push(Score { val: row[j].val, is_editing: false });
            j = j + 1;
        }
        out
    }

    /// Closes every cell for entry, keeping all values.
    pub fn clear_focus(&mut self)
        requires
            old(self).rounds_fit(),
        ensures
            final(self).same_setup(old(self)),
            same_values(final(self).scores@, old(self).scores@),
            final(self).rounds_fit(),
            final(self).no_editing(),
    {
        let mut i: usize = 0;
        while i < self.scores.len()
            invariant
                self.same_setup(old(self)),
                self.rounds_fit(),
                same_values(self.scores@, old(self).scores@),
                i <= self.scores@.len(),
                forall|r: int, p: int| 0 <= r < i && self.valid_cell(r, p) ==> !(#[trigger] self.cell(r, p)).is_editing,
            decreases self.scores@.len() - i,
        {
            let row = self.closed_round(i);
            let ghost prev = *self;
            self.scores.set(i, row);
            assert forall|r: int, p: int| 0 <= r <= i && self.valid_cell(r, p) implies !(#[trigger] self.cell(r, p)).is_editing by {
                if r < i {
                    assert(self.cell(r, p) == prev.cell(r, p));
                } else {
                    assert(self.cell(r, p) == row@[p]);
                }
            }
            i = i + 1;
        }
    }

    /// Puts `s` in cell `(r, p)`, leaving every other cell as it was.
    fn set_cell(&mut self, r: usize, p: usize, s: Score)
        requires
            old(self).rounds_fit(),
            old(self).valid_cell(r as int, p as int),
        ensures
            final(self).same_setup(old(self)),
            final(self).rounds_fit(),
            final(self).scores@.len() == old(self).scores@.len(),
            final(self).cell(r as int, p as int) == s,
            forall|r2: int, p2: int|
                final(self).valid_cell(r2, p2) && (r2 != r || p2 != p) ==> #[trigger] final(self).cell(r2, p2)
                    == old(self).cell(r2, p2),
    {
        self.scores[r].set(p, s);
    }

    /// Adds a round of unset cells in front and opens its first cell; every
    /// other cell is closed.
    pub fn next_round(&mut self)
        requires
            old(self).rounds_fit(),
        ensures
            final(self).prepends_empty_round(old(self)),
            final(self).wf(),
    {
        self.clear_focus();
        let ghost cleared_state = *self;
        let ghost cleared = self.scores@;
        let n = self.players.len();
        let mut round: Round = Vec::new();
        let mut j: usize = 0;
        while j < n
            invariant
                j <= n,
                round@.len() == j,
                forall|p: int| 0 <= p < j ==> (#[trigger] round@[p]).val is None && round@[p].is_editing == (p == 0),
            decreases n - j,
        {
            round.push(Score { val: None, is_editing: j == 0 });
            j = j + 1;
        }
        self.scores.insert(0, round);
        assert(self.scores@.drop_first() =~= cleared);
        assert forall|r: int, p: int| 1 <= r && self.valid_cell(r, p) implies !(#[trigger] self.cell(r, p)).is_editing by {
            assert(self.cell(r, p) == cleared_state.cell(r - 1, p));
            assert(cleared_state.valid_cell(r - 1, p));
        }
    }

    /// The first unset cell in search order, if any.
    pub fn get_next_empty(&self) -> (r: Option<(usize, usize)>)
        requires
            self.rounds_fit(),
        ensures
            match r {
                Some((a, b)) => self.first_empty(a as int, b as int),
                None => self.all_filled(),
            },
    {
        let n = self.players.len();
        let mut i: usize = 0;
        while i < self.scores.len()
            invariant
                self.rounds_fit(),
                n == self.players@.len(),
                i <= self.scores@.len(),
                forall|r: int, p: int| 0 <= r < i && 0 <= p < n ==> (#[trigger] self.cell(r, p)).val is Some,
            decreases self.scores@.len() - i,
        {
            let mut j: usize = 0;
            while j < n
                invariant
                    self.rounds_fit(),
                    n == self.players@.len(),
                    i < self.scores@.len(),
                    j <= n,
                    forall|r: int, p: int| 0 <= r < i && 0 <= p < n ==> (#[trigger] self.cell(r, p)).val is Some,
                    forall|p: int| 0 <= p < j ==> (#[trigger] self.cell(i as int, p)).val is Some,
                decreases n - j,
            {
                if self.scores[i][j].val.is_none() {
                    assert(self.cell(i as int, j as int).val is None);
                    return Some((i, j));
                }
                j = j + 1;
            }
            i = i + 1;
        }
        None
    }

    /// Opens cell `(round, player)` for entry and closes every other; values
    /// stay. A cell outside the grid leaves every cell closed.
    pub fn select_cell(&mut self, round: usize, player: usize)
        requires
            old(self).wf(),
        ensures
            final(self).selected_cell(old(self), round as int, player as int),
    {
        self.clear_focus();
        if round >= self.scores.len() || player >= self.players.len() {
            return;
        }
        let ghost cleared = *self;
        let v = self.scores[round][player].val;
        self.set_cell(round, player, Score { val: v, is_editing: true });
        assert forall|r: int, p: int| 0 <= r < self.scores@.len() && 0 <= p < self.scores@[r]@.len()
            implies (#[trigger] self.scores@[r]@[p]).val == cleared.scores@[r]@[p].val by {
            assert(self.valid_cell(r, p));
            if r == round && p == player {
                assert(self.cell(r, p).val == v);
            } else {
                assert(self.cell(r, p) == cleared.cell(r, p));
            }
        }
    }

    /// Enters `value` in cell `(round, player)` and moves the cursor on: to the
    /// first unset cell if there is one; else, unless the game is over, to the
    /// first cell of a new round put in front; else nowhere.
    pub fn enter_score(&mut self, round: usize, player: usize, value: i8)
        requires
            old(self).wf(),
            old(self).valid_cell(round as int, player as int),
        ensures
            final(self).entered_score(old(self), round as int, player as int, value),
    {
        self.clear_focus();
        let ghost cleared = *self;
        self.set_cell(round, player, Score { val: Some(value), is_editing: false });
        let ghost mid = *self;
        assert(mid.no_editing()) by {
            assert forall|r: int, p: int| mid.valid_cell(r, p) implies !(#[trigger] mid.cell(r, p)).is_editing by {
                if r != round || p != player {
                    assert(mid.cell(r, p) == cleared.cell(r, p));
                    assert(cleared.valid_cell(r, p));
                }
            }
        }
        assert(entered_values(mid.scores@, old(self).scores@, round as int, player as int, value)) by {
            assert forall|r2: int, p2: int|
                0 <= r2 < mid.scores@.len() && 0 <= p2 < mid.scores@[r2]@.len() && (r2 != round || p2 != player)
                implies (#[trigger] mid.scores@[r2]@[p2]).val == old(self).scores@[r2]@[p2].val by {
                assert(mid.cell(r2, p2) == cleared.cell(r2, p2));
                assert(cleared.scores@[r2]@[p2].val == old(self).scores@[r2]@[p2].val);
            }
        }
        match self.get_next_empty() {
            Some((r, p)) => {
                self.set_cell(r, p, Score { val: None, is_editing: true });
                assert forall|r2: int, p2: int| self.valid_cell(r2, p2) && (r2 != r || p2 != p) implies
                    #[trigger] self.cell(r2, p2) == mid.cell(r2, p2) && !self.cell(r2, p2).is_editing by {
                    assert(mid.valid_cell(r2, p2));
                }
                assert(same_values(self.scores@, mid.scores@)) by {
                    assert forall|r2: int, p2: int|
                        0 <= r2 < self.scores@.len() && 0 <= p2 < self.scores@[r2]@.len()
                        implies (#[trigger] self.scores@[r2]@[p2]).val == mid.scores@[r2]@[p2].val by {
                        assert(self.valid_cell(r2, p2));
                        if r2 == r && p2 == p {
                            assert(mid.cell(r2, p2).val is None);
                        } else {
                            assert(self.cell(r2, p2) == mid.cell(r2, p2));
                        }
                    }
                }
                assert(self.first_empty(r as int, p as int)) by {
                    assert forall|r2: int, p2: int|
                        self.valid_cell(r2, p2) && Self::searched_before(r2, p2, r as int, p as int) implies
                        (#[trigger] self.cell(r2, p2)).val is Some by {
                        assert(mid.valid_cell(r2, p2));
                        assert(mid.cell(r2, p2).val is Some);
                    }
                }
                assert(self.editing_only(r as int, p as int));
                assert(!self.all_filled()) by {
                    assert(self.valid_cell(r as int, p as int) && self.cell(r as int, p as int).val is None);
                }
                assert(self.cell(round as int, player as int) == mid.cell(round as int, player as int));
            },
            None => {
                if !self.is_game_over() {
                    self.next_round();
                    assert(self.scores@.drop_first() =~= self.scores@.subrange(1, self.scores@.len() as int));
                    assert forall|r2: int, p2: int| 1 <= r2 && self.valid_cell(r2, p2) implies
                        #[trigger] self.cell(r2, p2) == mid.cell(r2 - 1, p2) || (self.cell(r2, p2).val == mid.cell(r2 - 1, p2).val && !self.cell(r2, p2).is_editing && !mid.cell(r2 - 1, p2).is_editing) by {
                        assert(self.scores@.drop_first()[r2 - 1] == self.scores@[r2]);
                        assert(mid.valid_cell(r2 - 1, p2));
                    }
                    assert(self.cell(round + 1, player as int).val == Some(value));
                    assert(self.valid_cell(round + 1, player as int));
                    assert forall|q: int| 0 <= q < self.players@.len() implies self.total(q) == mid.total(q) by {
                        lemma_empty_round_keeps_totals(*self, mid, q);
                    }
                    assert(!(exists|w: int| self.sole_winner(w))) by {
                        if exists|w: int| self.sole_winner(w) {
                            let w = choose|w: int| self.sole_winner(w);
                            assert(mid.sole_winner(w));
                        }
                    }
                    assert(entered_values(self.scores@.drop_first(), old(self).scores@, round as int, player as int, value)) by {
                        assert forall|r2: int, p2: int|
                            0 <= r2 < self.scores@.drop_first().len() && 0 <= p2 < self.scores@.drop_first()[r2]@.len()
                            && (r2 != round || p2 != player)
                            implies (#[trigger] self.scores@.drop_first()[r2]@[p2]).val == old(self).scores@[r2]@[p2].val by {
                            assert(mid.scores@[r2]@[p2].val == old(self).scores@[r2]@[p2].val);
                        }
                    }
                }
            },
        }
    }

    /// The cell open for entry, or `(0, 0)` when there is none.
    pub fn focused_cell(&self) -> (r: (usize, usize))
        requires
            self.wf(),
        ensures
            (exists|a: int, b: int| self.valid_cell(a, b) && self.cell(a, b).is_editing) ==> self.editing_only(
                r.0 as int,
                r.1 as int,
            ),
            !(exists|a: int, b: int| self.valid_cell(a, b) && self.cell(a, b).is_editing) ==> r == (0usize, 0usize),
    {
        let n = self.players.len();
        let mut i: usize = 0;
        while i < self.scores.len()
            invariant
                self.wf(),
                n == self.players@.len(),
                i <= self.scores@.len(),
                forall|r: int, p: int| 0 <= r < i && 0 <= p < n ==> !(#[trigger] self.cell(r, p)).is_editing,
            decreases self.scores@.len() - i,
        {
            let mut j: usize = 0;
            while j < n
                invariant
                    self.wf(),
                    n == self.players@.len(),
                    i < self.scores@.len(),
                    j <= n,
                    forall|r: int, p: int| 0 <= r < i && 0 <= p < n ==> !(#[trigger] self.cell(r, p)).is_editing,
                    forall|p: int| 0 <= p < j ==> !(#[trigger] self.cell(i as int, p)).is_editing,
                decreases n - j,
            {
                if self.scores[i][j].is_editing {
                    assert(self.valid_cell(i as int, j as int) && self.cell(i as int, j as int).is_editing);
                    return (i, j);
                }
                j = j + 1;
            }
            i = i + 1;
        }
        (0, 0)
    }

    /// Whether every round has one cell per player and at most one cell is open.
    pub fn is_well_formed(&self) -> (r: bool)
        ensures
            r == self.wf(),
    {
        let n = self.players.len();
        let mut i: usize = 0;
        while i < self.scores.len()
            invariant
                n == self.players@.len(),
                i <= self.scores@.len(),
                forall|r: int| 0 <= r < i ==> #[trigger] self.scores@[r]@.len() == n,
            decreases self.scores@.len() - i,
        {
            if self.scores[i].len() != n {
                return false;
            }
            i = i + 1;
        }
        let mut found: Option<(usize, usize)> = None;
        i = 0;
        while i < self.scores.len()
            invariant
                self.rounds_fit(),
                n == self.players@.len(),
                i <= self.scores@.len(),
                found is None ==> forall|r: int, p: int| 0 <= r < i && 0 <= p < n ==> !(#[trigger] self.cell(r, p)).is_editing,
                found matches Some((a, b)) ==> a < i && b < n && self.cell(a as int, b as int).is_editing
                    && forall|r: int, p: int| 0 <= r < i && 0 <= p < n && #[trigger] self.cell(r, p).is_editing ==> r == a && p == b,
            decreases self.scores@.len() - i,
        {
            let mut j: usize = 0;
            while j < n
                invariant
                    self.rounds_fit(),
                    n == self.players@.len(),
                    i < self.scores@.len(),
                    j <= n,
                    found is None ==> forall|r: int, p: int|
                        (0 <= r < i && 0 <= p < n) || (r == i && 0 <= p < j) ==> !(#[trigger] self.cell(r, p)).is_editing,
                    found matches Some((a, b)) ==> (a < i || (a == i && b < j)) && b < n && self.cell(a as int, b as int).is_editing
                        && forall|r: int, p: int| ((0 <= r < i && 0 <= p < n) || (r == i && 0 <= p < j)) && #[trigger] self.cell(r, p).is_editing ==> r == a && p == b,
                decreases n - j,
            {
                if self.scores[i][j].is_editing {
                    if found.is_some() {
                        proof {
                            let (a, b) = found.unwrap();
                            assert(self.valid_cell(a as int, b as int) && self.valid_cell(i as int, j as int));
                            assert(self.cell(i as int, j as int).is_editing);
                        }
                        return false;
                    }
                    found = Some((i, j));
                }
                j = j + 1;
            }
            i = i + 1;
        }
        true
    }
}

} // verus!
