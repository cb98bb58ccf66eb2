//! The end of a hand: the showdown, the payout of the side pots, and what
//! follows a betting round that is complete.

use crate::game::hand::{join_cards, Card, HandScore, HandType, OnePlayerAllPossibleCards};
use crate::game::laws::{
    lemma_bets_nonnegative, lemma_cleared, lemma_conceded, lemma_leader_same,
    lemma_payout_bounded, lemma_settled, lemma_tier_paid, lemma_total_bounds, lemma_total_member,
    lemma_total_nonnegative, lemma_total_zeros,
};
use crate::game::ranking::is_seven;
use crate::game::selection::best_of_seven;
use crate::game::table::{total, total_prefix, zeros, Table};
use crate::game::{Game, GameError, HandProgress, HandResult};
use vstd::prelude::*;

verus! {

impl Game {
    /// The seat that wins the side pot `k`, if anybody contends for it.
    fn tier_leader(&self, scores: &Vec<HandScore>, k: usize) -> (winner: Option<usize>)
        requires
            k < self.pots.len(),
            scores.len() == self.seats.len(),
        ensures
            winner is None <==> self@.tier_winner(scores@, k as int) is None,
            winner matches Some(w) ==> self@.tier_winner(scores@, k as int) == Some(w as int) && w
                < self.seats.len(),
    {
        let level = self.pots[k].tier;
        let ghost t = self@;
        assert(t.tiers[k as int].level == level);
        let mut winner: Option<usize> = None;
        let mut s: usize = 0;
        while s < self.seats.len()
            invariant
                s <= self.seats.len(),
                t == self@,
                scores.len() == self.seats.len(),
                k < self.pots.len(),
                t.tiers[k as int].level == level,
                winner is None <==> t.leader(scores@, k as int, s as int) is None,
                winner matches Some(w) ==> t.leader(scores@, k as int, s as int) == Some(w as int)
                    && w < s,
            decreases self.seats.len() - s,
        {
            if self.seats[s].in_round && self.seats[s].bet >= level {
                let better = match winner {
                    None => true,
                    Some(w) => scores[w].is_below(&scores[s]),
                };
                if better {
                    winner = Some(s);
                }
            }
            s += 1;
        }
        winner
    }

    /// What is in the pot.
    pub fn get_pot_size(&self) -> (pot: i32)
        requires
            self@.funds_wf(),
        ensures
            pot == self@.pot(),
    {
        let mut sum: i32 = 0;
        let mut s: usize = 0;
        proof {
            lemma_bets_nonnegative(self@);
            lemma_total_bounds(self@.bets, 0);
            lemma_total_nonnegative(self@.stacks, self@.seats());
        }
        while s < self.seats.len()
            invariant
                s <= self.seats.len(),
                self@.funds_wf(),
                total(self@.stacks) >= 0,
                forall|j: int| 0 <= j < self@.bets.len() ==> #[trigger] self@.bets[j] >= 0,
                sum == total_prefix(self@.bets, s as int),
                0 <= sum <= total(self@.bets),
            decreases self.seats.len() - s,
        {
            proof {
                lemma_total_bounds(self@.bets, s + 1);
            }
            sum = sum + self.seats[s].bet;
            s += 1;
        }
        sum
    }

    /// Takes the contributions and the side pots off the table.
    fn empty_pot(&mut self)
        ensures
            final(self)@ == (Table {
                street_bets: zeros(old(self)@.ids.len()),
                bets: zeros(old(self)@.ids.len()),
                tiers: Seq::empty(),
                ..old(self)@
            }),
    {
        let ghost before = self@;
        let mut s: usize = 0;
        while s < self.seats.len()
            invariant
                s <= self.seats.len(),
                self.seats.len() == before.ids.len(),
                self@ == (Table {
                    street_bets: self@.street_bets,
                    bets: self@.bets,
                    ..before
                }),
                forall|j: int| 0 <= j < s ==> #[trigger] self@.street_bets[j] == 0,
                forall|j: int| 0 <= j < s ==> #[trigger] self@.bets[j] == 0,
            decreases self.seats.len() - s,
        {
            let ghost at_start = self@;
            self.seats[s].street_bet = 0;
            self.seats[s].bet = 0;
            proof {
                assert(self@ =~~= (Table {
                    street_bets: self@.street_bets,
                    bets: self@.bets,
                    ..before
                }));
                assert forall|j: int| 0 <= j < s + 1 implies #[trigger] self@.street_bets[j]
                    == 0 by {
                    if j < s {
                        assert(self@.street_bets[j] == at_start.street_bets[j]);
                    }
                }
                assert forall|j: int| 0 <= j < s + 1 implies #[trigger] self@.bets[j] == 0 by {
                    if j < s {
                        assert(self@.bets[j] == at_start.bets[j]);
                    }
                }
            }
            s += 1;
        }
        self.pots = Vec::new();
        proof {
            assert(self@.street_bets =~= zeros(before.ids.len()));
            assert(self@.bets =~= zeros(before.ids.len()));
            assert(self@ =~~= (Table {
                street_bets: zeros(before.ids.len()),
                bets: zeros(before.ids.len()),
                tiers: Seq::empty(),
                ..before
            }));
        }
    }

    /// Pays out the pot, side pot by side pot, given what the hand of each
    /// player is worth. The winner of a side pot is the first of the players
    /// who contend for it that no other outranks.
    pub fn settle(&mut self, scores: &Vec<HandScore>)
        requires
            old(self)@.funds_wf(),
            scores.len() == old(self)@.seats(),
        ensures
            final(self)@ == old(self)@.settled(scores@),
            final(self)@.funds_wf(),
            final(self)@.chips() == old(self)@.chips(),
            final(self)@.pot() == 0,
    {
        let ghost before = self@;
        let ghost n = before.ids.len();
        let mut k: usize = 0;
        let mut below: i32 = 0;
        proof {
            assert(self@ =~~= (Table {
                stacks: Seq::new(
                    n,
                    |s: int| before.stacks[s] + before.winnings_prefix(scores@, s, 0),
                ),
                ..before
            }));
        }
        while k < self.pots.len()
            invariant
                k <= self.pots.len(),
                before.funds_wf(),
                n == before.ids.len(),
                self.seats.len() == n,
                self.pots.len() == before.tiers.len(),
                scores.len() == n,
                self@ == (Table {
                    stacks: Seq::new(
                        n,
                        |s: int| before.stacks[s] + before.winnings_prefix(scores@, s, k as int),
                    ),
                    ..before
                }),
                below == (if k == 0 {
                    0
                } else {
                    before.tiers[k - 1].level
                }),
            decreases self.pots.len() - k,
        {
            let ghost at_start = self@;
            let level = self.pots[k].tier;
            proof {
                assert(before.tiers[k as int].level == level);
                lemma_tier_paid(before, scores@, k as int);
                lemma_payout_bounded(before, scores@, k + 1);
                lemma_payout_bounded(before, scores@, k as int);
                lemma_leader_same(before, at_start, scores@, k as int, n as int);
                lemma_bets_nonnegative(before);
                lemma_total_nonnegative(before.stacks, before.seats());
            }
            let layer = level - below;
            assert(layer == before.layer(k as int));
            match self.tier_leader(scores, k) {
                Some(w) => {
                    let count = self.pots[k].eligible.len();
                    proof {
                        assert(before.tiers[k as int].eligible.len() == count);
                        assert(before.award(scores@, k as int, w as int) == layer * count);
                        assert(before.winnings_prefix(scores@, w as int, k + 1)
                            == before.winnings_prefix(scores@, w as int, k as int) + layer * count);
                        assert(before.stacks[w as int] + before.winnings_prefix(
                            scores@,
                            w as int,
                            k + 1,
                        ) <= before.chips());
                        assert(before.stacks[w as int] >= 0);
                        assert(layer * count <= i32::MAX);
                        assert(count <= i32::MAX) by (nonlinear_arith)
                            requires
                                layer >= 1,
                                count >= 0,
                                layer * count <= i32::MAX,
                        ;
                    }
                    let amount = layer * (count as i32);
                    assert(amount == layer * count);
                    assert(at_start.stacks[w as int] == before.stacks[w as int]
                        + before.winnings_prefix(scores@, w as int, k as int));
                    assert(self.seats[w as int].player.money == at_start.stacks[w as int]);
                    self.seats[w].player.money = self.seats[w].player.money + amount;
                    proof {
                        assert forall|s: int| 0 <= s < n implies #[trigger] self@.stacks[s]
                            == before.stacks[s] + before.winnings_prefix(scores@, s, k + 1) by {
                            assert(at_start.stacks[s] == before.stacks[s] + before.winnings_prefix(
                                scores@,
                                s,
                                k as int,
                            ));
                        }
                    }
                },
                None => {
                    let mut s: usize = 0;
                    while s < self.seats.len()
                        invariant
                            s <= self.seats.len(),
                            before.funds_wf(),
                            n == before.ids.len(),
                            self.seats.len() == n,
                            k < before.tiers.len(),
                            before.tiers[k as int].level == level,
                            layer == before.layer(k as int),
                            before.tier_winner(scores@, k as int) is None,
                            forall|j: int|
                                0 <= j < n ==> 0 <= #[trigger] before.winnings_prefix(
                                    scores@,
                                    j,
                                    k + 1,
                                ) && before.stacks[j] + before.winnings_prefix(scores@, j, k + 1)
                                    <= before.chips(),
                            self@ == (Table { stacks: self@.stacks, ..before }),
                            forall|j: int|
                                0 <= j < s ==> #[trigger] self@.stacks[j] == before.stacks[j]
                                    + before.winnings_prefix(scores@, j, k + 1),
                            forall|j: int|
                                s <= j < n ==> #[trigger] self@.stacks[j] == before.stacks[j]
                                    + before.winnings_prefix(scores@, j, k as int),
                        decreases self.seats.len() - s,
                    {
                        let ghost inner = self@;
                        assert(before.bets[s as int] == self.seats[s as int].bet);
                        assert(before.winnings_prefix(scores@, s as int, k + 1)
                            == before.winnings_prefix(scores@, s as int, k as int) + before.award(
                            scores@,
                            k as int,
                            s as int,
                        ));
                        assert(inner.stacks[s as int] == before.stacks[s as int]
                            + before.winnings_prefix(scores@, s as int, k as int));
                        if self.seats[s].bet >= level {
                            self.seats[s].player.money = self.seats[s].player.money + layer;
                        }
                        proof {
                            assert(self@ =~~= (Table { stacks: self@.stacks, ..before }));
                            assert forall|j: int| 0 <= j < s + 1 implies #[trigger] self@.stacks[j]
                                == before.stacks[j] + before.winnings_prefix(scores@, j, k + 1) by {
                                if j < s {
                                    assert(self@.stacks[j] == inner.stacks[j]);
                                }
                            }
                            assert forall|j: int| s + 1 <= j < n implies #[trigger] self@.stacks[j]
                                == before.stacks[j] + before.winnings_prefix(
                                scores@,
                                j,
                                k as int,
                            ) by {
                                assert(self@.stacks[j] == inner.stacks[j]);
                            }
                        }
                        s += 1;
                    }
                },
            }
            proof {
                assert(self@ =~~= (Table {
                    stacks: Seq::new(
                        n,
                        |s: int| before.stacks[s] + before.winnings_prefix(scores@, s, k + 1),
                    ),
                    ..before
                }));
            }
            below = level;
            k += 1;
        }
        self.empty_pot();
        proof {
            assert(self@ =~~= before.settled(scores@));
            lemma_settled(before, scores@);
        }
    }

    /// What each player has brought to the hand: what is left of it, and what
    /// the player has put in.
    fn hand_stakes(&self) -> (stakes: Vec<i32>)
        requires
            self@.funds_wf(),
        ensures
            stakes@.len() == self@.seats(),
            forall|s: int|
                0 <= s < stakes@.len() ==> #[trigger] stakes@[s] == self@.stacks[s] + self@.bets[s],
    {
        let ghost t = self@;
        let mut stakes: Vec<i32> = Vec::new();
        let mut s: usize = 0;
        proof {
            lemma_bets_nonnegative(t);
            lemma_total_member(t.bets, t.seats());
            lemma_total_member(t.stacks, t.seats());
            lemma_total_nonnegative(t.stacks, t.seats());
        }
        while s < self.seats.len()
            invariant
                s <= self.seats.len(),
                t == self@,
                t.funds_wf(),
                total(t.bets) >= 0,
                total(t.stacks) >= 0,
                forall|j: int| 0 <= j < t.seats() ==> #[trigger] t.bets[j] <= total(t.bets),
                forall|j: int| 0 <= j < t.seats() ==> #[trigger] t.stacks[j] <= total(t.stacks),
                forall|j: int| 0 <= j < t.seats() ==> #[trigger] t.bets[j] >= 0,
                stakes@.len() == s,
                forall|j: int| 0 <= j < s ==> #[trigger] stakes@[j] == t.stacks[j] + t.bets[j],
            decreases self.seats.len() - s,
        {
            assert(t.stacks[s as int] <= total(t.stacks) && t.bets[s as int] <= total(t.bets));
            assert(t.stacks[s as int] >= 0 && t.bets[s as int] >= 0);
            stakes.push(self.seats[s].player.money + self.seats[s].bet);
            s += 1;
        }
        stakes
    }

    /// What each player has won or lost, given what each had brought.
    fn hand_deltas(&self, stakes: &Vec<i32>) -> (deltas: Vec<i32>)
        requires
            stakes@.len() == self@.seats(),
            forall|s: int| 0 <= s < stakes@.len() ==> #[trigger] stakes@[s] >= 0,
            forall|s: int| 0 <= s < self@.seats() ==> #[trigger] self@.stacks[s] >= 0,
        ensures
            deltas@.len() == self@.seats(),
            forall|s: int|
                0 <= s < deltas@.len() ==> #[trigger] deltas@[s] == self@.stacks[s] - stakes@[s],
    {
        let ghost t = self@;
        let mut deltas: Vec<i32> = Vec::new();
        let mut s: usize = 0;
        while s < self.seats.len()
            invariant
                s <= self.seats.len(),
                t == self@,
                stakes@.len() == t.seats(),
                forall|j: int| 0 <= j < stakes@.len() ==> #[trigger] stakes@[j] >= 0,
                forall|j: int| 0 <= j < t.seats() ==> #[trigger] t.stacks[j] >= 0,
                deltas@.len() == s,
                forall|j: int| 0 <= j < s ==> #[trigger] deltas@[j] == t.stacks[j] - stakes@[j],
            decreases self.seats.len() - s,
        {
            assert(t.stacks[s as int] >= 0 && stakes@[s as int] >= 0);
            deltas.push(self.seats[s].player.money - stakes[s]);
            s += 1;
        }
        deltas
    }

    /// The best hand among the players who are still in the hand.
    fn best_hand(&self, scores: &Vec<HandScore>) -> (best: Option<HandScore>)
        requires
            scores.len() == self.seats.len(),
        ensures
            best == self@.best_shown(scores@),
    {
        let ghost t = self@;
        let mut champion: Option<usize> = None;
        let mut s: usize = 0;
        while s < self.seats.len()
            invariant
                s <= self.seats.len(),
                t == self@,
                scores.len() == self.seats.len(),
                champion is None <==> t.champion(scores@, s as int) is None,
                champion matches Some(w) ==> t.champion(scores@, s as int) == Some(w as int) && w
                    < s,
            decreases self.seats.len() - s,
        {
            if self.seats[s].in_round {
                let better = match champion {
                    None => true,
                    Some(w) => scores[w].is_below(&scores[s]),
                };
                if better {
                    champion = Some(s);
                }
            }
            s += 1;
        }
        match champion {
            Some(w) => Some(scores[w]),
            None => None,
        }
    }

    /// Ends the hand, and says what each player has won or lost in it. Where
    /// all but one have folded, the one who is left takes the whole pot, and
    /// no hand is looked at. Else the hands are shown: the best five of the
    /// seven cards of each player who is still in the hand decide the side
    /// pots. Nothing changes where such a player does not have seven distinct
    /// cards with ranks from 2 to 14.
    pub fn determine_winner(&mut self) -> (res: Result<HandResult, GameError>)
        requires
            old(self)@.funds_wf(),
        ensures
            match res {
                Ok(result) => {
                    &&& final(self)@.funds_wf()
                    &&& final(self)@.chips() == old(self)@.chips()
                    &&& final(self)@.pot() == 0
                    &&& result.deltas@.len() == old(self)@.seats()
                    &&& forall|s: int|
                        0 <= s < result.deltas@.len()
                            ==> #[trigger] result.deltas@[s] == final(self)@.stacks[s]
                            - old(self)@.stacks[s] - old(self)@.bets[s]
                    &&& old(self)@.live_count() == 1 ==> final(self)@ == old(self)@.conceded()
                        && result.winning_hand is None
                    &&& old(self)@.live_count() != 1 ==> old(self)@.can_show() && exists|
                        scores: Seq<HandScore>,
                    |
                        old(self)@.shows(scores)
                            && #[trigger] old(self)@.settled(scores) == final(self)@
                            && result.winning_hand == old(self)@.best_shown(scores)
                },
                Err(GameError::InvalidCards) => old(self)@.live_count() != 1
                    && !old(self)@.can_show() && final(self)@ == old(self)@,
                Err(_) => false,
            },
    {
        let ghost before = self@;
        let stakes = self.hand_stakes();
        proof {
            lemma_bets_nonnegative(before);
        }
        if self.live_count() == 1 {
            proof {
                lemma_conceded(before);
                lemma_total_nonnegative(before.stacks, before.seats());
                lemma_total_member(before.stacks, before.seats());
            }
            let pot = self.get_pot_size();
            let winner = self.first_live();
            assert(before.stacks[winner as int] <= total(before.stacks));
            self.seats[winner].player.money = self.seats[winner].player.money + pot;
            let ghost paid = self@;
            assert(paid =~~= (Table {
                stacks: before.stacks.update(
                    winner as int,
                    before.stacks[winner as int] + before.pot(),
                ),
                ..before
            }));
            self.empty_pot();
            assert(self@ =~~= before.conceded());
            let deltas = self.hand_deltas(&stakes);
            return Ok(HandResult { deltas, winning_hand: None });
        }
        let mut scores: Vec<HandScore> = Vec::new();
        let mut s: usize = 0;
        while s < self.seats.len()
            invariant
                s <= self.seats.len(),
                self@ == before,
                before == old(self)@,
                before.live_count() != 1,
                scores.len() == s,
                forall|j: int|
                    0 <= j < s && #[trigger] before.in_round[j] ==> is_seven(before.cards_of(j))
                        && best_of_seven(scores[j], before.cards_of(j)),
            decreases self.seats.len() - s,
        {
            let ghost so_far = scores@;
            if self.seats[s].in_round {
                let seven = join_cards(&self.seats[s].player.hole_cards, &self.community_cards);
                assert(seven@ == before.cards_of(s as int));
                if !OnePlayerAllPossibleCards::is_valid(&seven) {
                    assert(before.in_round[s as int] && !is_seven(before.cards_of(s as int)));
                    assert(!before.can_show());
                    return Err(GameError::InvalidCards);
                }
                let all = OnePlayerAllPossibleCards::new(seven);
                scores.push(all.get_highest_hand_score());
            } else {
                scores.push(HandScore { hand_type: HandType::HighCard, score: 0 });
            }
            proof {
                assert forall|j: int|
                    0 <= j < s + 1 && #[trigger] before.in_round[j] implies is_seven(
                    before.cards_of(j),
                ) && best_of_seven(scores[j], before.cards_of(j)) by {
                    if j < s {
                        assert(scores[j] == so_far[j]);
                    }
                }
            }
            s += 1;
        }
        let ghost shown = scores@;
        let winning_hand = self.best_hand(&scores);
        self.settle(&scores);
        let deltas = self.hand_deltas(&stakes);
        proof {
            assert(before.shows(shown));
            assert(before.settled(shown) == self@);
            assert(winning_hand == before.best_shown(shown));
        }
        Ok(HandResult { deltas, winning_hand })
    }

    /// Clears what is left of the hand: the cards, the queue, the bets and
    /// the side pots. What is still in the pot is lost with it.
    pub fn clear_round_data(&mut self)
        ensures
            final(self)@ == old(self)@.cleared(),
    {
        let ghost before = self@;
        self.empty_pot();
        let mut s: usize = 0;
        while s < self.seats.len()
            invariant
                s <= self.seats.len(),
                self.seats.len() == before.ids.len(),
                self@ == (Table {
                    hole_cards: self@.hole_cards,
                    in_round: self@.in_round,
                    street_bets: zeros(before.ids.len()),
                    bets: zeros(before.ids.len()),
                    tiers: Seq::empty(),
                    ..before
                }),
                forall|j: int| 0 <= j < s
                    ==> #[trigger] self@.hole_cards[j] == Seq::<Card>::empty(),
                forall|j: int| 0 <= j < s ==> #[trigger] self@.in_round[j] == false,
            decreases self.seats.len() - s,
        {
            let ghost at_start = self@;
            self.seats[s].player.hole_cards = Vec::new();
            self.seats[s].in_round = false;
            proof {
                assert(self@.street_bets =~= at_start.street_bets);
                assert(self@.bets =~= at_start.bets);
                assert(self@ =~~= (Table {
                    hole_cards: self@.hole_cards,
                    in_round: self@.in_round,
                    street_bets: zeros(before.ids.len()),
                    bets: zeros(before.ids.len()),
                    tiers: Seq::empty(),
                    ..before
                }));
                assert forall|j: int| 0 <= j < s + 1 implies #[trigger] self@.hole_cards[j]
                    == Seq::<Card>::empty() by {
                    if j < s {
                        assert(self@.hole_cards[j] == at_start.hole_cards[j]);
                    }
                }
                assert forall|j: int| 0 <= j < s + 1 implies #[trigger] self@.in_round[j]
                    == false by {
                    if j < s {
                        assert(self@.in_round[j] == at_start.in_round[j]);
                    }
                }
            }
            s += 1;
        }
        self.community_cards.clear();
        self.turn_queue.clear();
        self.pending = 0;
        self.curr_bet = 0;
        self.last_player_to_raise = None;
        self.has_raised = false;
        proof {
            assert(self@.hole_cards =~= before.cleared().hole_cards);
            assert(self@.in_round =~= before.cleared().in_round);
            assert(self@ =~~= before.cleared());
        }
    }

    /// Ends the hand for good: what is left of it is cleared, every player
    /// moves one seat down, the first to the last seat, and the dealer's
    /// place moves on by one.
    pub fn rotate_dealer(&mut self)
        ensures
            final(self)@ == old(self)@.cleared().rotated(),
    {
        self.clear_round_data();
        let ghost cleared = self@;
        if self.seats.len() == 0 {
            return ;
        }
        let first = self.seats.remove(0);
        self.seats.push(first);
        if self.seats.len() <= 32767 && self.dealer_location >= 0 {
            let next = (self.dealer_location as usize + 1) % self.seats.len();
            self.dealer_location = next as i16;
        }
        proof {
            assert(self@ =~~= cleared.rotated());
        }
    }

    /// What follows a betting round that is complete. Where all but one have
    /// folded, or the five cards are on the table, the hand ends: the pot is
    /// paid out and the table is cleared. Else the next street is dealt: the
    /// flop onto an empty table, one card onto a table with cards. Nothing
    /// changes while the round waits for a decision, where the deck runs
    /// out, or where a hand cannot be shown.
    pub fn advance_hand(&mut self, deck: &mut Vec<Card>) -> (res: Result<HandProgress, GameError>)
        requires
            old(self)@.wf(),
        ensures
            final(self)@.wf(),
            match res {
                Ok(HandProgress::Finished(result)) => {
                    &&& !old(self)@.awaiting()
                    &&& old(self)@.live_count() == 1 || old(self)@.community.len() >= 5
                    &&& final(self)@.chips() == old(self)@.chips()
                    &&& final(self)@.pot() == 0
                    &&& result.deltas@.len() == old(self)@.seats()
                    &&& forall|s: int|
                        0 <= s < result.deltas@.len()
                            ==> #[trigger] result.deltas@[s] == final(self)@.stacks[s]
                            - old(self)@.stacks[s] - old(self)@.bets[s]
                    &&& old(self)@.live_count() == 1
                        ==> final(self)@ == old(self)@.conceded().cleared()
                        && result.winning_hand is None
                    &&& old(self)@.live_count() != 1 ==> old(self)@.can_show() && exists|
                        scores: Seq<HandScore>,
                    |
                        old(self)@.shows(scores) && #[trigger] old(self)@.settled(scores).cleared()
                            == final(self)@ && result.winning_hand == old(self)@.best_shown(scores)
                    &&& final(deck)@ == old(deck)@
                },
                Ok(HandProgress::Street(outcome)) => {
                    &&& !old(self)@.awaiting()
                    &&& old(self)@.live_count() != 1
                    &&& old(self)@.community.len() < 5
                    &&& final(self)@.chips() == old(self)@.chips()
                    &&& outcome == final(self)@.outcome()
                    &&& exists|cards: Seq<Card>|
                        cards.len() == (if old(self)@.community.len() == 0 {
                            3int
                        } else {
                            1int
                        }) && old(deck)@.to_multiset() == final(deck)@.to_multiset().add(
                            cards.to_multiset(),
                        ) && #[trigger] old(self)@.street_opened(cards) == final(self)@
                },
                Err(GameError::RoundNotComplete) => old(self)@.awaiting()
                    && final(self)@ == old(self)@ && final(deck)@ == old(deck)@,
                Err(GameError::InvalidCards) => !old(self)@.awaiting() && (old(self)@.live_count()
                    == 1 || old(self)@.community.len() >= 5) && !old(self)@.can_show()
                        && final(self)@ == old(self)@ && final(deck)@ == old(deck)@,
                Err(GameError::DeckExhausted) => !old(self)@.awaiting() && old(self)@.live_count()
                    != 1 && old(self)@.community.len() < 5 && final(self)@ == old(self)@
                        && final(deck)@ == old(deck)@,
                Err(_) => false,
            },
    {
        let ghost before = self@;
        let live = self.live_count();
        if live > 1 && self.pending > 0 {
            return Err(GameError::RoundNotComplete);
        }
        if live == 1 || self.community_cards.len() >= 5 {
            match self.determine_winner() {
                Ok(result) => {
                    let ghost paid = self@;
                    self.clear_round_data();
                    proof {
                        lemma_cleared(paid);
                        lemma_total_zeros(paid.ids.len(), paid.ids.len() as int);
                    }
                    Ok(HandProgress::Finished(result))
                },
                Err(e) => Err(e),
            }
        } else if self.community_cards.len() == 0 {
            match self.deal_flop(deck) {
                Ok(outcome) => Ok(HandProgress::Street(outcome)),
                Err(e) => Err(e),
            }
        } else {
            match self.deal_single_card(deck) {
                Ok(outcome) => Ok(HandProgress::Street(outcome)),
                Err(e) => Err(e),
            }
        }
    }
}

} // verus!
