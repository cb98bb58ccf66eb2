//! Looking a table over at run time: whether the chips, the side pots and
//! the queue are in order. What a hand keeps in order by proof, a caller
//! outside the proofs can test before it goes on.

use crate::game::laws::lemma_total_bounds;
use crate::game::table::{ascending_levels, levels_of, tiers_for, total, total_prefix};
use crate::game::{seats_of, Game};
use vstd::prelude::*;

verus! {

/// Whether the two runs of seats are the same.
fn same_seats(a: &Vec<usize>, b: &Vec<usize>) -> (same: bool)
    ensures
        same == (seats_of(a@) == seats_of(b@)),
{
    if a.len() != b.len() {
        assert(seats_of(a@).len() != seats_of(b@).len());
        return false;
    }
    let mut i: usize = 0;
    while i < a.len()
        invariant
            i <= a.len(),
            a.len() == b.len(),
            forall|j: int| 0 <= j < i ==> a[j] == b[j],
        decreases a.len() - i,
    {
        if a[i] != b[i] {
            assert(seats_of(a@)[i as int] != seats_of(b@)[i as int]);
            return false;
        }
        i += 1;
    }
    assert(seats_of(a@) =~= seats_of(b@));
    true
}

impl Game {
    /// Whether no stack is negative and what each player has put in on the
    /// street is part of what the player has put in during the hand.
    fn has_sound_amounts(&self) -> (ok: bool)
        ensures
            ok == ((forall|s: int| 0 <= s < self@.seats() ==> #[trigger] self@.stacks[s] >= 0)
                && (forall|s: int|
                0 <= s < self@.seats() ==> 0 <= #[trigger] self@.street_bets[s] <= self@.bets[s])),
    {
        let ghost t = self@;
        let mut s: usize = 0;
        while s < self.seats.len()
            invariant
                s <= self.seats.len(),
                t == self@,
                forall|j: int| 0 <= j < s ==> #[trigger] t.stacks[j] >= 0,
                forall|j: int| 0 <= j < s ==> 0 <= #[trigger] t.street_bets[j] <= t.bets[j],
            decreases self.seats.len() - s,
        {
            let seat = &self.seats[s];
            if seat.player.money < 0 {
                assert(!(t.stacks[s as int] >= 0));
                return false;
            }
            if seat.street_bet < 0 || seat.street_bet > seat.bet {
                assert(!(0 <= t.street_bets[s as int] <= t.bets[s as int]));
                return false;
            }
            s += 1;
        }
        true
    }

    /// Whether all the chips of the table can be counted.
    fn has_countable_chips(&self) -> (ok: bool)
        requires
            forall|s: int| 0 <= s < self@.seats() ==> #[trigger] self@.stacks[s] >= 0,
            forall|s: int|
                0 <= s < self@.seats() ==> 0 <= #[trigger] self@.street_bets[s] <= self@.bets[s],
        ensures
            ok == (self@.chips() <= i32::MAX),
    {
        let ghost t = self@;
        let mut sum: i32 = 0;
        let mut s: usize = 0;
        proof {
            assert forall|j: int| 0 <= j < t.bets.len() implies #[trigger] t.bets[j] >= 0 by {
                assert(0 <= t.street_bets[j] <= t.bets[j]);
            }
            lemma_total_bounds(t.stacks, 0);
            lemma_total_bounds(t.bets, 0);
        }
        while s < self.seats.len()
            invariant
                s <= self.seats.len(),
                t == self@,
                forall|j: int| 0 <= j < t.stacks.len() ==> #[trigger] t.stacks[j] >= 0,
                forall|j: int| 0 <= j < t.bets.len() ==> #[trigger] t.bets[j] >= 0,
                total(t.bets) >= 0,
                sum == total_prefix(t.stacks, s as int),
                0 <= sum,
            decreases self.seats.len() - s,
        {
            let money = self.seats[s].player.money;
            proof {
                lemma_total_bounds(t.stacks, s + 1);
            }
            if money > i32::MAX - sum {
                return false;
            }
            sum = sum + money;
            s += 1;
        }
        let ghost in_stacks = sum;
        s = 0;
        while s < self.seats.len()
            invariant
                s <= self.seats.len(),
                t == self@,
                forall|j: int| 0 <= j < t.bets.len() ==> #[trigger] t.bets[j] >= 0,
                in_stacks == total(t.stacks),
                sum == in_stacks + total_prefix(t.bets, s as int),
                0 <= in_stacks <= sum,
            decreases self.seats.len() - s,
        {
            let bet = self.seats[s].bet;
            proof {
                lemma_total_bounds(t.bets, s + 1);
                lemma_total_bounds(t.bets, s as int);
            }
            if bet > i32::MAX - sum {
                return false;
            }
            sum = sum + bet;
            s += 1;
        }
        true
    }

    /// Whether the side pots are as the contributions make them.
    fn has_sound_pots(&self) -> (ok: bool)
        ensures
            ok == self@.tiers_wf(),
    {
        let ghost t = self@;
        let ghost levels = levels_of(t.tiers);
        let mut k: usize = 0;
        while k < self.pots.len()
            invariant
                k <= self.pots.len(),
                t == self@,
                levels == levels_of(t.tiers),
                forall|j: int| 0 <= j < k ==> #[trigger] levels[j] > 0,
                forall|i: int, j: int| 0 <= i < j < k ==> levels[i] < levels[j],
                forall|j: int|
                    0 <= j < k ==> #[trigger] t.tiers[j] == tiers_for(levels, t.bets)[j],
            decreases self.pots.len() - k,
        {
            let level = self.pots[k].tier;
            assert(levels[k as int] == level);
            if level <= 0 {
                return false;
            }
            let mut j: usize = 0;
            while j < k
                invariant
                    j <= k < self.pots.len(),
                    t == self@,
                    levels == levels_of(t.tiers),
                    levels[k as int] == level,
                    forall|i: int| 0 <= i < j ==> levels[i] < level,
                decreases k - j,
            {
                assert(levels[j as int] == self.pots[j as int].tier);
                if self.pots[j].tier >= level {
                    assert(!(levels[j as int] < levels[k as int]));
                    return false;
                }
                j += 1;
            }
            let expected = self.seats_with_at_least(level);
            if !same_seats(&self.pots[k].eligible, &expected) {
                assert(t.tiers[k as int].eligible != tiers_for(levels, t.bets)[k as int].eligible);
                assert(t.tiers != tiers_for(levels, t.bets));
                return false;
            }
            assert(t.tiers[k as int] =~~= tiers_for(levels, t.bets)[k as int]);
            k += 1;
        }
        assert(t.tiers =~= tiers_for(levels, t.bets));
        let mut s: usize = 0;
        while s < self.seats.len()
            invariant
                s <= self.seats.len(),
                t == self@,
                levels == levels_of(t.tiers),
                ascending_levels(levels),
                t.tiers == tiers_for(levels, t.bets),
                forall|j: int|
                    0 <= j < s && #[trigger] t.bets[j] > 0 ==> levels.contains(t.bets[j]),
            decreases self.seats.len() - s,
        {
            let bet = self.seats[s].bet;
            if bet > 0 {
                let mut found = false;
                let mut k: usize = 0;
                while k < self.pots.len()
                    invariant
                        k <= self.pots.len(),
                        t == self@,
                        levels == levels_of(t.tiers),
                        found ==> levels.contains(bet as int),
                        !found ==> forall|j: int| 0 <= j < k ==> levels[j] != bet,
                    decreases self.pots.len() - k,
                {
                    assert(levels[k as int] == self.pots[k as int].tier);
                    if self.pots[k].tier == bet {
                        found = true;
                    }
                    k += 1;
                }
                if !found {
                    assert(!levels.contains(t.bets[s as int]));
                    return false;
                }
            }
            s += 1;
        }
        true
    }

    /// Whether the chips are in order: a hand may be shown and paid out.
    pub fn has_sound_funds(&self) -> (ok: bool)
        ensures
            ok == self@.funds_wf(),
    {
        self.has_sound_amounts() && self.has_countable_chips() && self.has_sound_pots()
    }

    /// Whether the queue is in order.
    fn has_sound_queue(&self) -> (ok: bool)
        ensures
            ok == self@.queue_wf(),
    {
        let ghost t = self@;
        if self.pending > self.turn_queue.len() {
            return false;
        }
        let mut j: usize = 0;
        while j < self.turn_queue.len()
            invariant
                j <= self.turn_queue.len(),
                t == self@,
                forall|i: int|
                    0 <= i < j ==> 0 <= #[trigger] t.queue[i] < t.seats() && t.in_round[t.queue[i]]
                        && t.stacks[t.queue[i]] > 0,
                forall|h: int, i: int| 0 <= h < i < j ==> t.queue[h] != t.queue[i],
                forall|i: int|
                    t.pending <= i < j ==> t.street_bets[#[trigger] t.queue[i]] == t.curr_bet,
            decreases self.turn_queue.len() - j,
        {
            let seat = self.turn_queue[j];
            assert(t.queue[j as int] == seat);
            if seat >= self.seats.len() || !self.seats[seat].in_round
                || self.seats[seat].player.money <= 0 {
                return false;
            }
            if j >= self.pending && self.seats[seat].street_bet != self.curr_bet {
                return false;
            }
            let mut h: usize = 0;
            while h < j
                invariant
                    h <= j < self.turn_queue.len(),
                    t == self@,
                    t.queue[j as int] == seat,
                    forall|i: int| 0 <= i < h ==> t.queue[i] != seat,
                decreases j - h,
            {
                assert(t.queue[h as int] == self.turn_queue@[h as int]);
                if self.turn_queue[h] == seat {
                    assert(t.queue[h as int] == t.queue[j as int]);
                    return false;
                }
                h += 1;
            }
            j += 1;
        }
        true
    }

    /// Whether the table is well formed: a hand can go on.
    pub fn is_well_formed(&self) -> (ok: bool)
        ensures
            ok == self@.wf(),
    {
        if !self.has_sound_funds() || self.big_blind < 0 || !self.has_sound_queue() {
            return false;
        }
        let ghost t = self@;
        let mut s: usize = 0;
        while s < self.seats.len()
            invariant
                s <= self.seats.len(),
                t == self@,
                forall|j: int| 0 <= j < s ==> #[trigger] t.street_bets[j] <= t.curr_bet,
            decreases self.seats.len() - s,
        {
            if self.seats[s].street_bet > self.curr_bet {
                assert(!(t.street_bets[s as int] <= t.curr_bet));
                return false;
            }
            s += 1;
        }
        true
    }
}

} // verus!
