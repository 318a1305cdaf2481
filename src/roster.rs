//! The roster: adding and removing players, and short display names.
use vstd::prelude::*;

use crate::state::{Player, Round, Score, State};

verus! {

/// The lowercase form of a text, as `str::to_lowercase` gives it.
pub uninterp spec fn lower_of(s: Seq<char>) -> Seq<char>;

/// Relies on `str::to_lowercase`: its result depends on the characters alone.
#[verifier::external_body]
fn lowercase(s: &str) -> (r: String)
    ensures
        r@ == lower_of(s@),
{
    s.to_lowercase()
}

/// The first `k` characters of `s`, or all of `s` when it is shorter.
pub open spec fn clamped_prefix(s: Seq<char>, k: int) -> Seq<char> {
    if k <= s.len() {
        s.take(k)
    } else {
        s
    }
}

/// Another name shares, ignoring case, the first `k` characters of name `idx`.
pub open spec fn prefix_collides(names: Seq<Player>, idx: int, k: int) -> bool {
    exists|j: int|
        0 <= j < names.len() && j != idx && #[trigger] lower_of(clamped_prefix(names[j]@, k)) == lower_of(
            names[idx]@.take(k),
        )
}

/// The shortest prefix length, from `k` upward, at which name `idx` collides
/// with no other name; its full length when none does.
pub open spec fn unique_prefix_len_from(names: Seq<Player>, idx: int, k: int) -> int
    recommends
        0 <= idx < names.len(),
        k >= 1,
    decreases names[idx]@.len() + 1 - k,
{
    if k >= 1 && k <= names[idx]@.len() {
        if !prefix_collides(names, idx, k) {
            k
        } else {
            unique_prefix_len_from(names, idx, k + 1)
        }
    } else {
        names[idx]@.len() as int
    }
}

/// The shortest case-insensitive prefix of name `idx` that no other name shares.
pub open spec fn unique_prefix_of(names: Seq<Player>, idx: int) -> Seq<char> {
    names[idx]@.take(unique_prefix_len_from(names, idx, 1))
}

/// Whether entry `idx` of `lowered` differs from every other entry.
pub fn differs_from_others(lowered: &Vec<String>, idx: usize) -> (r: bool)
    requires
        idx < lowered@.len(),
    ensures
        r == forall|j: int| 0 <= j < lowered@.len() && j != idx ==> #[trigger] lowered@[j]@ != lowered@[idx as int]@,
{
    let mut j: usize = 0;
    while j < lowered.len()
        invariant
            idx < lowered@.len(),
            j <= lowered@.len(),
            forall|q: int| 0 <= q < j && q != idx ==> #[trigger] lowered@[q]@ != lowered@[idx as int]@,
        decreases lowered@.len() - j,
    {
        if j != idx && lowered[j] == lowered[idx] {
            return false;
        }
        j = j + 1;
    }
    true
}

/// Shortest prefix of the name at `idx` that, compared case-insensitively with
/// the same-length (or whole, if shorter) prefix of every other name, matches
/// none; the whole name when no shorter prefix does.
pub fn unique_prefix(names: &Vec<Player>, idx: usize) -> (r: String)
    requires
        idx < names@.len(),
    ensures
        r@ == unique_prefix_of(names@, idx as int),
{
    let name = names[idx].as_str();
    let len = name.unicode_len();
    let mut k: usize = 1;
    while k <= len
        invariant
            idx < names@.len(),
            name@ == names@[idx as int]@,
            len == name@.len(),
            1 <= k,
            unique_prefix_len_from(names@, idx as int, 1) == unique_prefix_len_from(names@, idx as int, k as int),
        decreases len + 1 - k,
    {
        let mut lowered: Vec<String> = Vec::new();
        let mut j: usize = 0;
        while j < names.len()
            invariant
                idx < names@.len(),
                name@ == names@[idx as int]@,
                len == name@.len(),
                1 <= k <= len,
                j <= names@.len(),
                lowered@.len() == j,
                forall|q: int| 0 <= q < j && q != idx ==> #[trigger] lowered@[q]@ == lower_of(clamped_prefix(names@[q]@, k as int)),
                idx < j ==> lowered@[idx as int]@ == lower_of(name@.take(k as int)),
            decreases names@.len() - j,
        {
            let other = names[j].as_str();
            let other_len = other.unicode_len();
            let cut = if k < other_len { k } else { other_len };
            let piece = other.substring_char(0, cut);
            assert(piece@ == clamped_prefix(names@[j as int]@, k as int)) by {
                if k > other_len {
                    assert(other@.subrange(0, other_len as int) =~= other@);
                }
            }
            lowered.push(lowercase(piece));
            j = j + 1;
        }
        if differs_from_others(&lowered, idx) {
            proof {
                if prefix_collides(names@, idx as int, k as int) {
                    let q = choose|q: int|
                        0 <= q < names@.len() && q != idx && #[trigger] lower_of(clamped_prefix(names@[q]@, k as int))
                            == lower_of(names@[idx as int]@.take(k as int));
                    assert(lowered@[q]@ == lowered@[idx as int]@);
                }
            }
            return name.substring_char(0, k).to_string();
        }
        proof {
            let q = choose|q: int| 0 <= q < lowered@.len() && q != idx && #[trigger] lowered@[q]@ == lowered@[idx as int]@;
            assert(lower_of(clamped_prefix(names@[q]@, k as int)) == lower_of(names@[idx as int]@.take(k as int)));
            assert(prefix_collides(names@, idx as int, k as int));
        }
        if k == len {
            assert(unique_prefix_len_from(names@, idx as int, k + 1) == len);
            assert(unique_prefix_len_from(names@, idx as int, k as int) == len);
            assert(name@.take(len as int) =~= name@);
            return name.to_string();
        }
        k = k + 1;
    }
    assert(name@.take(len as int) =~= name@);
    name.to_string()
}

impl State {
    /// The outcome of adding a player named `name` to `before`: ignored when
    /// the name is empty; else the player joins at the end of the roster and
    /// each existing round gains an unset, closed cell.
    pub open spec fn added_player(&self, before: &State, name: Player) -> bool {
        &&& name@.len() == 0 ==> *self == *before
        &&& name@.len() > 0 ==> {
            &&& self.players@ == before.players@.push(name)
            &&& self.scores@.len() == before.scores@.len()
            &&& forall|r: int|
                0 <= r < self.scores@.len() ==> (#[trigger] self.scores@[r])@ == before.scores@[r]@.push(
                    Score { val: None, is_editing: false },
                )
        }
        &&& self.is_in_progress == before.is_in_progress
        &&& self.first_to == before.first_to
        &&& self.negative_size == before.negative_size
        &&& self.deck_size == before.deck_size
    }

    /// The outcome of removing the player at `idx` from `before`: ignored past
    /// the roster; else the player and that player's cell of every round go,
    /// later positions moving down by one.
    pub open spec fn removed_player(&self, before: &State, idx: int) -> bool {
        &&& !(0 <= idx < before.players@.len()) ==> *self == *before
        &&& 0 <= idx < before.players@.len() ==> {
            &&& self.players@ == before.players@.remove(idx)
            &&& self.scores@.len() == before.scores@.len()
            &&& forall|r: int|
                0 <= r < self.scores@.len() ==> (#[trigger] self.scores@[r])@ == before.scores@[r]@.remove(idx)
        }
        &&& self.is_in_progress == before.is_in_progress
        &&& self.first_to == before.first_to
        &&& self.negative_size == before.negative_size
        &&& self.deck_size == before.deck_size
    }
    /// Adds a player named `name` at the end of the roster; an empty name is
    /// ignored. Rounds already played get an unset, closed cell for the newcomer.
    pub fn add_player(&mut self, name: Player)
        requires
            old(self).wf(),
        ensures
            final(self).wf(),
            final(self).added_player(old(self), name),
    {
        if name.as_str().unicode_len() == 0 {
            return;
        }
        self.players.push(name);
        let mut i: usize = 0;
        while i < self.scores.len()
            invariant
                self.players@ == old(self).players@.push(name),
                self.is_in_progress == old(self).is_in_progress,
                self.first_to == old(self).first_to,
                self.negative_size == old(self).negative_size,
                self.deck_size == old(self).deck_size,
                old(self).wf(),
                self.scores@.len() == old(self).scores@.len(),
                i <= self.scores@.len(),
                forall|r: int|
                    0 <= r < i ==> (#[trigger] self.scores@[r])@ == old(self).scores@[r]@.push(
                        Score { val: None, is_editing: false },
                    ),
                forall|r: int| i <= r < self.scores@.len() ==> (#[trigger] self.scores@[r]) == old(self).scores@[r],
            decreases self.scores@.len() - i,
        {
            self.scores[i].push(Score { val: None, is_editing: false });
            i = i + 1;
        }
        proof {
            lemma_added_player_keeps_wf(*self, *old(self), name);
        }
    }

    /// Removes the player at `idx`, and that player's cell from every round;
    /// an index past the roster is ignored.
    pub fn remove_player(&mut self, idx: usize)
        requires
            old(self).wf(),
        ensures
            final(self).wf(),
            final(self).removed_player(old(self), idx as int),
    {
        if idx >= self.players.len() {
            return;
        }
        self.players.remove(idx);
        let ghost n = old(self).players@.len();
        let mut i: usize = 0;
        while i < self.scores.len()
            invariant
                n == old(self).players@.len(),
                idx < n,
                self.players@ == old(self).players@.remove(idx as int),
                self.is_in_progress == old(self).is_in_progress,
                self.first_to == old(self).first_to,
                self.negative_size == old(self).negative_size,
                self.deck_size == old(self).deck_size,
                old(self).wf(),
                self.scores@.len() == old(self).scores@.len(),
                i <= self.scores@.len(),
                forall|r: int|
                    0 <= r < i ==> (#[trigger] self.scores@[r])@ == old(self).scores@[r]@.remove(idx as int),
                forall|r: int| i <= r < self.scores@.len() ==> (#[trigger] self.scores@[r]) == old(self).scores@[r],
            decreases self.scores@.len() - i,
        {
            assert(old(self).scores@[i as int]@.len() == n);
            self.scores[i].remove(idx);
            i = i + 1;
        }
        proof {
            lemma_removed_player_keeps_wf(*self, *old(self), idx as int);
        }
    }
}

/// Adding a player keeps every round one cell per player and at most one cell open.
pub proof fn lemma_added_player_keeps_wf(after: State, before: State, name: Player)
    requires
        before.wf(),
        after.added_player(&before, name),
    ensures
        after.wf(),
{
    if name@.len() > 0 {
        let n = before.players@.len();
        assert forall|r: int| 0 <= r < after.scores@.len() implies #[trigger] after.scores@[r]@.len()
            == after.players@.len() by {
            assert(before.scores@[r]@.len() == n);
        }
        assert forall|r1: int, p1: int, r2: int, p2: int|
            after.valid_cell(r1, p1) && after.valid_cell(r2, p2) && #[trigger] after.cell(r1, p1).is_editing
                && #[trigger] after.cell(r2, p2).is_editing implies r1 == r2 && p1 == p2 by {
            assert(before.scores@[r1]@.len() == n);
            assert(before.scores@[r2]@.len() == n);
            if p1 < n && p2 < n {
                assert(after.cell(r1, p1) == before.cell(r1, p1));
                assert(after.cell(r2, p2) == before.cell(r2, p2));
            }
        }
    }
}

/// Removing a player keeps every round one cell per player and at most one cell open.
pub proof fn lemma_removed_player_keeps_wf(after: State, before: State, idx: int)
    requires
        before.wf(),
        after.removed_player(&before, idx),
    ensures
        after.wf(),
{
    if 0 <= idx < before.players@.len() {
        let n = before.players@.len();
        assert forall|r: int| 0 <= r < after.scores@.len() implies #[trigger] after.scores@[r]@.len()
            == after.players@.len() by {
            assert(before.scores@[r]@.len() == n);
        }
        assert forall|r1: int, p1: int, r2: int, p2: int|
            after.valid_cell(r1, p1) && after.valid_cell(r2, p2) && #[trigger] after.cell(r1, p1).is_editing
                && #[trigger] after.cell(r2, p2).is_editing implies r1 == r2 && p1 == p2 by {
            assert(before.scores@[r1]@.len() == n);
            assert(before.scores@[r2]@.len() == n);
            let q1 = if p1 < idx { p1 } else { p1 + 1 };
            let q2 = if p2 < idx { p2 } else { p2 + 1 };
            assert(after.cell(r1, p1) == before.cell(r1, q1));
            assert(after.cell(r2, p2) == before.cell(r2, q2));
            assert(before.valid_cell(r1, q1) && before.valid_cell(r2, q2));
        }
    }
}

} // verus!
