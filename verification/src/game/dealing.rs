//! Dealing: the cards of the players and the blinds at the start of a hand,
//! and the cards of the table at the start of each street. The cards come
//! from the deck at random; what a hand or a street begins with is a
//! function of the cards drawn.

use crate::game::hand::{copy_cards, Card};
use crate::game::laws::{
    lemma_all_cards_same, lemma_count_picked_grows, lemma_hand_begun, lemma_paid_keeps_queue,
    lemma_picked_count,
    lemma_picked_seats, lemma_street_opened, lemma_total_bounds, lemma_total_zeros,
};
use crate::game::table::{
    all_cards, can_act, count_picked, hands_of, levels_of, seat_numbers, tiers_for, total,
    total_prefix, zeros, RoundOutcome, Table,
};
use crate::game::{seats_of, Game, GameError};
use rand::seq::IteratorRandom;
use vstd::prelude::*;

verus! {

/// `IteratorRandom::choose` of the `rand` crate on the positions below `len`,
/// with the generator of the thread: one of the positions, whichever the
/// generator picks; none if and only if there is no position.
#[verifier::external_body]
fn choose_position(len: usize) -> (chosen: Option<usize>)
    ensures
        len == 0 ==> chosen is None,
        len > 0 ==> chosen is Some && chosen.unwrap() < len,
{
    (0..len).choose(&mut rand::thread_rng())
}

/// Takes a card out of the deck at random; none if the deck is empty.
pub fn draw_card(deck: &mut Vec<Card>) -> (drawn: Option<Card>)
    ensures
        drawn is None <==> old(deck)@.len() == 0,
        drawn is None ==> final(deck)@ == old(deck)@,
        drawn matches Some(card) ==> exists|i: int|
            0 <= i < old(deck)@.len() && card == #[trigger] old(deck)@[i]
                && final(deck)@ == old(deck)@.remove(i),
{
    match choose_position(deck.len()) {
        Some(i) => {
            let card = deck.remove(i);
            assert(card == old(deck)@[i as int]);
            Some(card)
        },
        None => None,
    }
}

/// Takes `count` cards out of the deck at random. The cards drawn and the
/// cards left are together the cards that were there. Nothing is drawn from a
/// deck that holds fewer.
pub fn draw_cards(deck: &mut Vec<Card>, count: usize) -> (drawn: Option<Vec<Card>>)
    ensures
        drawn is None <==> old(deck)@.len() < count,
        drawn is None ==> final(deck)@ == old(deck)@,
        drawn matches Some(cards) ==> cards@.len() == count
            && final(deck)@.len() + count == old(deck)@.len()
            && old(deck)@.to_multiset() == final(deck)@.to_multiset().add(
            cards@.to_multiset(),
        ),
{
    if deck.len() < count {
        return None;
    }
    let mut cards: Vec<Card> = Vec::new();
    let ghost start = deck@;
    proof {
        assert(cards@.to_multiset() =~= vstd::multiset::Multiset::<Card>::empty()) by {
            broadcast use vstd::seq_lib::group_to_multiset_ensures;

            assert(cards@.to_multiset().len() == 0);
        }
        assert(start.to_multiset() =~= deck@.to_multiset().add(cards@.to_multiset()));
    }
    while cards.len() < count
        invariant
            cards.len() <= count,
            deck@.len() + cards@.len() == start.len(),
            start.len() >= count,
            start.to_multiset() == deck@.to_multiset().add(cards@.to_multiset()),
        decreases count - cards.len(),
    {
        let ghost deck_before = deck@;
        let ghost cards_before = cards@;
        match draw_card(deck) {
            Some(card) => {
                cards.push(card);
                proof {
                    let i = choose|i: int|
                        0 <= i < deck_before.len() && card == #[trigger] deck_before[i] && deck@
                            == deck_before.remove(i);
                    vstd::seq_lib::to_multiset_remove(deck_before, i);
                    vstd::seq_lib::to_multiset_build(cards_before, card);
                    broadcast use vstd::seq_lib::to_multiset_contains;

                    assert(deck_before.contains(card));
                    assert(deck_before.to_multiset().count(card) > 0);
                    assert(start.to_multiset() =~= deck@.to_multiset().add(
                        cards@.to_multiset(),
                    ));
                }
            },
            None => {
                assert(false);
            },
        }
    }
    Some(cards)
}

impl Game {
    /// Whether a hand can begin.
    pub fn is_ready(&self) -> (ready: bool)
        ensures
            ready == self@.ready(),
    {
        let ghost t = self@;
        if self.big_blind < 0 {
            return false;
        }
        let mut s: usize = 0;
        while s < self.seats.len()
            invariant
                s <= self.seats.len(),
                t == self@,
                forall|j: int| 0 <= j < s ==> #[trigger] t.stacks[j] >= 0,
            decreases self.seats.len() - s,
        {
            if self.seats[s].player.money < 0 {
                assert(!(t.stacks[s as int] >= 0));
                return false;
            }
            s += 1;
        }
        let mut sum: i32 = 0;
        s = 0;
        proof {
            lemma_total_bounds(t.stacks, 0);
        }
        while s < self.seats.len()
            invariant
                s <= self.seats.len(),
                t == self@,
                forall|j: int| 0 <= j < t.stacks.len() ==> #[trigger] t.stacks[j] >= 0,
                sum == total_prefix(t.stacks, s as int),
                0 <= sum,
            decreases self.seats.len() - s,
        {
            let money = self.seats[s].player.money;
            proof {
                lemma_total_bounds(t.stacks, s + 1);
            }
            if money > i32::MAX - sum {
                return false;
            }
            sum = sum + money;
            s += 1;
        }
        self.funded_count() >= 2
    }

    /// Queues everybody who can still act, in seating order.
    fn queue_able(&mut self)
        ensures
            final(self)@ == (Table { queue: old(self)@.able_seats(), ..old(self)@ }),
    {
        let ghost before = self@;
        let ghost rule = can_act(before.in_round, before.stacks);
        let ghost all = seat_numbers(before.ids.len());
        self.turn_queue.clear();
        let mut s: usize = 0;
        proof {
            reveal(Seq::filter);
            assert(all.take(0).filter(rule) == Seq::<int>::empty());
            assert(seats_of(self.turn_queue@) =~= Seq::<int>::empty());
        }
        while s < self.seats.len()
            invariant
                s <= self.seats.len(),
                self@ == (Table { queue: seats_of(self.turn_queue@), ..before }),
                rule == can_act(before.in_round, before.stacks),
                all == seat_numbers(before.ids.len()),
                seats_of(self.turn_queue@) == all.take(s as int).filter(rule),
            decreases self.seats.len() - s,
        {
            proof {
                reveal(Seq::filter);
                assert(all.take(s + 1).drop_last() == all.take(s as int));
                assert(all.take(s + 1).last() == s);
            }
            let ghost queued = self.turn_queue@;
            if self.seats[s].in_round && self.seats[s].player.money > 0 {
                self.turn_queue.push_back(s);
                assert(seats_of(self.turn_queue@) =~= seats_of(queued).push(s as int));
            }
            s += 1;
        }
        assert(all.take(self.seats.len() as int) == all);
    }

    /// The player at the front of the queue posts a blind: `amount`, or the
    /// whole stack where that is less.
    fn post_blind(&mut self, amount: i32)
        requires
            old(self)@.funds_wf(),
            old(self)@.queue.len() > 0,
            0 <= old(self)@.queue[0] < old(self)@.seats(),
            amount >= 0,
        ensures
            final(self)@ == old(self)@.blind_posted(amount as int),
            final(self)@.funds_wf(),
    {
        let ghost before = self@;
        let seat = self.turn_queue.pop_front().unwrap();
        let stack = self.seats[seat].player.money;
        let ghost rest = before.queue.drop_first();
        let ghost popped = self@;
        assert(popped =~~= (Table { queue: rest, ..before }));
        assert(before.stacks[seat as int] >= 0);
        if amount < stack {
            self.make_player_bet(seat, amount);
            proof {
                lemma_paid_keeps_queue(before, rest, seat as int, amount as int);
            }
            self.turn_queue.push_back(seat);
            assert(self@ =~~= (Table {
                queue: rest.push(seat as int),
                ..before.paid(seat as int, amount as int)
            }));
        } else {
            self.make_player_bet(seat, stack);
            proof {
                lemma_paid_keeps_queue(before, rest, seat as int, stack as int);
            }
            assert(self@ =~~= (Table { queue: rest, ..before.paid(seat as int, stack as int) }));
        }
        assert(self@ == before.blind_posted(amount as int));
    }

    /// Whether `hole` holds two cards for every seat that has something to
    /// bet.
    fn holds_cards_for(&self, hole: &Vec<Vec<Card>>) -> (ok: bool)
        ensures
            ok == self@.holds_for(hands_of(hole@)),
    {
        if hole.len() != self.seats.len() {
            return false;
        }
        let ghost t = self@;
        let ghost hands = hands_of(hole@);
        let mut s: usize = 0;
        while s < self.seats.len()
            invariant
                s <= self.seats.len(),
                t == self@,
                hands == hands_of(hole@),
                hole.len() == self.seats.len(),
                forall|j: int| 0 <= j < s && t.stacks[j] > 0 ==> (#[trigger] hands[j]).len() == 2,
            decreases self.seats.len() - s,
        {
            assert(hands[s as int] == hole[s as int]@);
            if self.seats[s].player.money > 0 && hole[s].len() != 2 {
                return false;
            }
            s += 1;
        }
        true
    }

    /// Begins a hand with the given cards: `hole` holds the two cards for
    /// each seat. Everybody who has something to bet is dealt in, the first
    /// two of them post the blinds, and the round waits for the player behind
    /// them. Nothing changes where the table is not ready, or where `hole`
    /// does not hold two cards for every seat that has something to bet.
    pub fn begin_hand(&mut self, hole: Vec<Vec<Card>>) -> (res: Result<RoundOutcome, GameError>)
        ensures
            match res {
                Ok(outcome) => {
                    &&& old(self)@.ready()
                    &&& old(self)@.holds_for(hands_of(hole@))
                    &&& final(self)@ == old(self)@.hand_begun(hands_of(hole@))
                    &&& final(self)@.wf()
                    &&& final(self)@.chips() == total(old(self)@.stacks)
                    &&& outcome == final(self)@.outcome()
                },
                Err(GameError::TableNotReady) => !old(self)@.ready() && final(self)@ == old(self)@,
                Err(GameError::InvalidCards) => old(self)@.ready() && !old(self)@.holds_for(
                    hands_of(hole@),
                ) && final(self)@ == old(self)@,
                Err(_) => false,
            },
    {
        let ghost before = self@;
        let ghost hands = hands_of(hole@);
        if !self.is_ready() {
            return Err(GameError::TableNotReady);
        }
        if !self.holds_cards_for(&hole) {
            return Err(GameError::InvalidCards);
        }
        let mut s: usize = 0;
        while s < self.seats.len()
            invariant
                s <= self.seats.len(),
                hole@.len() == self.seats.len(),
                hands == hands_of(hole@),
                self.seats.len() == before.ids.len(),
                self@.ids == before.ids,
                self@.names == before.names,
                self@.stacks == before.stacks,
                self@ == (Table {
                    hole_cards: self@.hole_cards,
                    in_round: self@.in_round,
                    street_bets: self@.street_bets,
                    bets: self@.bets,
                    ..before
                }),
                forall|j: int|
                    0 <= j < s ==> #[trigger] self@.hole_cards[j] == (if before.stacks[j] > 0 {
                        hands[j]
                    } else {
                        Seq::<Card>::empty()
                    }),
                forall|j: int| 0 <= j < s
                    ==> #[trigger] self@.in_round[j] == (before.stacks[j] > 0),
                forall|j: int| 0 <= j < s ==> #[trigger] self@.street_bets[j] == 0,
                forall|j: int| 0 <= j < s ==> #[trigger] self@.bets[j] == 0,
            decreases self.seats.len() - s,
        {
            let ghost at_start = self@;
            if self.seats[s].player.money > 0 {
                self.seats[s].player.hole_cards = copy_cards(&hole[s]);
                self.seats[s].in_round = true;
            } else {
                self.seats[s].player.hole_cards = Vec::new();
                self.seats[s].in_round = false;
            }
            self.seats[s].street_bet = 0;
            self.seats[s].bet = 0;
            proof {
                assert(self@.ids =~= before.ids);
                assert(self@.names =~= before.names);
                assert(self@.stacks =~= before.stacks);
                assert(self@ =~~= (Table {
                    hole_cards: self@.hole_cards,
                    in_round: self@.in_round,
                    street_bets: self@.street_bets,
                    bets: self@.bets,
                    ..before
                }));
                assert forall|j: int| 0 <= j < s + 1 implies #[trigger] self@.hole_cards[j] == (
                if before.stacks[j] > 0 {
                    hands[j]
                } else {
                    Seq::<Card>::empty()
                }) by {
                    if j < s {
                        assert(self@.hole_cards[j] == at_start.hole_cards[j]);
                    } else {
                        assert(before.stacks[j] == at_start.stacks[j]);
                    }
                }
                assert forall|j: int| 0 <= j < s + 1 implies #[trigger] self@.in_round[j] == (
                before.stacks[j] > 0) by {
                    if j < s {
                        assert(self@.in_round[j] == at_start.in_round[j]);
                    } else {
                        assert(before.stacks[j] == at_start.stacks[j]);
                    }
                }
                assert forall|j: int| 0 <= j < s + 1 implies #[trigger] self@.street_bets[j]
                    == 0 by {
                    if j < s {
                        assert(self@.street_bets[j] == at_start.street_bets[j]);
                    }
                }
                assert forall|j: int| 0 <= j < s + 1 implies #[trigger] self@.bets[j] == 0 by {
                    if j < s {
                        assert(self@.bets[j] == at_start.bets[j]);
                    }
                }
            }
            s += 1;
        }
        self.community_cards = Vec::new();
        self.pots = Vec::new();
        self.curr_bet = self.big_blind;
        self.last_player_to_raise = None;
        self.has_raised = false;
        self.pending = 0;
        self.queue_able();
        let ghost dealt = before.dealt(hands);
        proof {
            assert(self@.in_round =~= dealt.in_round);
            assert(self@.hole_cards =~= dealt.hole_cards);
            assert(self@.street_bets =~= dealt.street_bets);
            assert(self@.bets =~= dealt.bets);
            assert(self@.able_seats() == before.funded());
            assert(self@ =~~= dealt);
            lemma_picked_seats(before.ids.len(), can_act(dealt.in_round, before.stacks));
            lemma_total_zeros(before.ids.len(), before.ids.len() as int);
            assert(dealt.tiers_wf()) by {
                assert(levels_of(dealt.tiers) =~= Seq::<int>::empty());
                assert(dealt.tiers =~= tiers_for(levels_of(dealt.tiers), dealt.bets));
            }
            assert(dealt.funds_wf());
            assert(0 <= dealt.queue[0] < dealt.seats());
            assert(0 <= dealt.queue[1] < dealt.seats());
        }
        self.post_blind(self.big_blind / 2);
        let ghost small = self@;
        assert(small.queue[0] == dealt.queue[1]);
        let big_seat = self.turn_queue[0];
        assert(big_seat == small.queue[0]);
        self.post_blind(self.big_blind);
        self.last_player_to_raise = Some(self.seats[big_seat].player.player_id);
        self.pending = self.turn_queue.len();
        proof {
            assert(self@ =~~= before.hand_begun(hands));
            lemma_hand_begun(before, hands);
        }
        Ok(self.round_outcome())
    }

    /// How many players have something to bet.
    fn funded_count(&self) -> (funded: usize)
        ensures
            funded == self@.funded().len(),
            funded <= self.seats.len(),
    {
        let ghost t = self@;
        let ghost rule = can_act(Seq::new(t.ids.len(), |j: int| t.stacks[j] > 0), t.stacks);
        let mut funded: usize = 0;
        let mut s: usize = 0;
        while s < self.seats.len()
            invariant
                s <= self.seats.len(),
                t == self@,
                rule == can_act(Seq::new(t.ids.len(), |j: int| t.stacks[j] > 0), t.stacks),
                funded == count_picked(rule, s as int),
                funded <= s,
            decreases self.seats.len() - s,
        {
            if self.seats[s].player.money > 0 {
                funded += 1;
            }
            s += 1;
        }
        proof {
            lemma_picked_count(t.ids.len(), rule, t.ids.len() as int);
            assert(seat_numbers(t.ids.len()).take(t.ids.len() as int) == seat_numbers(
                t.ids.len(),
            ));
        }
        funded
    }

    /// Begins a hand with cards from the deck: two for every player who has
    /// something to bet, drawn at random. The cards dealt and the cards left
    /// in the deck are together the cards that were in the deck, and the hand
    /// begins as `begin_hand` begins it with the cards dealt. Nothing is
    /// drawn and nothing changes where the table is not ready or the deck
    /// holds too few cards.
    pub fn deal_hole_cards(&mut self, deck: &mut Vec<Card>) -> (res: Result<
        RoundOutcome,
        GameError,
    >)
        ensures
            match res {
                Ok(outcome) => {
                    &&& old(self)@.ready()
                    &&& final(self)@.wf()
                    &&& final(self)@.chips() == total(old(self)@.stacks)
                    &&& outcome == final(self)@.outcome()
                    &&& exists|hole: Seq<Seq<Card>>|
                        old(self)@.deals_to(hole)
                            && old(deck)@.to_multiset() == final(deck)@.to_multiset().add(
                            all_cards(hole, old(self)@.seats()).to_multiset(),
                        ) && #[trigger] old(self)@.hand_begun(hole) == final(self)@
                },
                Err(GameError::TableNotReady) => !old(self)@.ready() && final(self)@ == old(self)@
                    && final(deck)@ == old(deck)@,
                Err(GameError::DeckExhausted) => old(self)@.ready()
                    && old(deck)@.len() < 2 * old(self)@.funded().len()
                    && final(self)@ == old(self)@ && final(deck)@ == old(deck)@,
                Err(_) => false,
            },
    {
        if !self.is_ready() {
            return Err(GameError::TableNotReady);
        }
        let funded = self.funded_count();
        if deck.len() / 2 < funded {
            return Err(GameError::DeckExhausted);
        }
        let ghost t = self@;
        let ghost rule = can_act(Seq::new(t.ids.len(), |j: int| t.stacks[j] > 0), t.stacks);
        let ghost start = deck@;
        let mut hole: Vec<Vec<Card>> = Vec::new();
        let mut s: usize = 0;
        proof {
            lemma_picked_count(t.ids.len(), rule, t.ids.len() as int);
            assert(seat_numbers(t.ids.len()).take(t.ids.len() as int) == seat_numbers(
                t.ids.len(),
            ));
            assert(start.to_multiset() =~= deck@.to_multiset().add(
                all_cards(hands_of(hole@), 0).to_multiset(),
            )) by {
                broadcast use vstd::seq_lib::group_to_multiset_ensures;

                assert(all_cards(hands_of(hole@), 0).to_multiset().len() == 0);
            }
        }
        while s < self.seats.len()
            invariant
                s <= self.seats.len(),
                self@ == t,
                t == old(self)@,
                t.ready(),
                rule == can_act(Seq::new(t.ids.len(), |j: int| t.stacks[j] > 0), t.stacks),
                hole.len() == s,
                count_picked(rule, t.ids.len() as int) == funded,
                deck@.len() >= 2 * (funded - count_picked(rule, s as int)),
                forall|j: int|
                    0 <= j < s ==> (#[trigger] hole[j]).len() == if t.stacks[j] > 0 {
                        2nat
                    } else {
                        0nat
                    },
                start.to_multiset() == deck@.to_multiset().add(
                    all_cards(hands_of(hole@), s as int).to_multiset(),
                ),
            decreases self.seats.len() - s,
        {
            let ghost dealt = hands_of(hole@);
            let ghost deck_before = deck@;
            proof {
                lemma_count_picked_grows(rule, s + 1, t.ids.len() as int);
            }
            if self.seats[s].player.money > 0 {
                match draw_cards(deck, 2) {
                    Some(cards) => {
                        hole.push(cards);
                    },
                    None => {
                        assert(false);
                        return Err(GameError::DeckExhausted);
                    },
                }
            } else {
                hole.push(Vec::new());
            }
            proof {
                let hands = hands_of(hole@);
                let last = hands[s as int];
                lemma_all_cards_same(dealt, hands, s as int);
                vstd::seq_lib::lemma_multiset_commutative(all_cards(hands, s as int), last);
                if t.stacks[s as int] > 0 {
                    assert(deck_before.to_multiset() == deck@.to_multiset().add(
                        last.to_multiset(),
                    ));
                } else {
                    assert(last.to_multiset() =~= vstd::multiset::Multiset::<Card>::empty()) by {
                        broadcast use vstd::seq_lib::group_to_multiset_ensures;

                        assert(last.to_multiset().len() == 0);
                    }
                }
                assert(start.to_multiset() =~= deck@.to_multiset().add(
                    all_cards(hands, s + 1).to_multiset(),
                ));
            }
            s += 1;
        }
        let ghost hands = hands_of(hole@);
        assert(t.deals_to(hands));
        assert(t.holds_for(hands));
        let res = self.begin_hand(hole);
        proof {
            assert(t.hand_begun(hands) == self@);
        }
        res
    }

    /// Opens a street with the given cards on the table: nothing is bet yet,
    /// and everybody who can still act is queued in seating order.
    pub fn open_street(&mut self, cards: Vec<Card>) -> (outcome: RoundOutcome)
        requires
            old(self)@.wf(),
        ensures
            final(self)@ == old(self)@.street_opened(cards@),
            final(self)@.wf(),
            final(self)@.chips() == old(self)@.chips(),
            outcome == final(self)@.outcome(),
    {
        let ghost before = self@;
        let mut cards = cards;
        let ghost added = cards@;
        self.community_cards.append(&mut cards);
        let mut s: usize = 0;
        while s < self.seats.len()
            invariant
                s <= self.seats.len(),
                self.seats.len() == before.ids.len(),
                self@ == (Table {
                    community: before.community + added,
                    street_bets: self@.street_bets,
                    ..before
                }),
                forall|j: int| 0 <= j < s ==> #[trigger] self@.street_bets[j] == 0,
            decreases self.seats.len() - s,
        {
            let ghost at_start = self@;
            self.seats[s].street_bet = 0;
            proof {
                assert(self@ =~~= (Table {
                    community: before.community + added,
                    street_bets: self@.street_bets,
                    ..before
                }));
                assert forall|j: int| 0 <= j < s + 1 implies #[trigger] self@.street_bets[j]
                    == 0 by {
                    if j < s {
                        assert(self@.street_bets[j] == at_start.street_bets[j]);
                    }
                }
            }
            s += 1;
        }
        self.curr_bet = 0;
        self.last_player_to_raise = None;
        self.has_raised = false;
        self.queue_able();
        self.pending = self.turn_queue.len();
        proof {
            assert(self@.street_bets =~= zeros(before.ids.len()));
            assert(self@ =~~= before.street_opened(added));
            lemma_street_opened(before, added);
        }
        self.round_outcome()
    }

    /// Deals the flop: three cards from the deck, drawn at random, open the
    /// street. Nothing changes where the deck holds fewer.
    pub fn deal_flop(&mut self, deck: &mut Vec<Card>) -> (res: Result<RoundOutcome, GameError>)
        requires
            old(self)@.wf(),
        ensures
            final(self)@.wf(),
            final(self)@.chips() == old(self)@.chips(),
            match res {
                Ok(outcome) => {
                    &&& outcome == final(self)@.outcome()
                    &&& exists|cards: Seq<Card>|
                        cards.len() == 3
                            && old(deck)@.to_multiset()
                            == final(deck)@.to_multiset().add(cards.to_multiset())
                            && #[trigger] old(self)@.street_opened(cards) == final(self)@
                },
                Err(GameError::DeckExhausted) => old(deck)@.len() < 3 && final(self)@ == old(self)@
                    && final(deck)@ == old(deck)@,
                Err(_) => false,
            },
    {
        match draw_cards(deck, 3) {
            Some(cards) => {
                let ghost drawn = cards@;
                let outcome = self.open_street(cards);
                assert(old(self)@.street_opened(drawn) == self@);
                Ok(outcome)
            },
            None => Err(GameError::DeckExhausted),
        }
    }

    /// Deals the turn or the river: one card from the deck, drawn at random,
    /// opens the street. Nothing changes where the deck is empty.
    pub fn deal_single_card(&mut self, deck: &mut Vec<Card>) -> (res: Result<
        RoundOutcome,
        GameError,
    >)
        requires
            old(self)@.wf(),
        ensures
            final(self)@.wf(),
            final(self)@.chips() == old(self)@.chips(),
            match res {
                Ok(outcome) => {
                    &&& outcome == final(self)@.outcome()
                    &&& exists|cards: Seq<Card>|
                        cards.len() == 1
                            && old(deck)@.to_multiset()
                            == final(deck)@.to_multiset().add(cards.to_multiset())
                            && #[trigger] old(self)@.street_opened(cards) == final(self)@
                },
                Err(GameError::DeckExhausted) => old(deck)@.len() < 1 && final(self)@ == old(self)@
                    && final(deck)@ == old(deck)@,
                Err(_) => false,
            },
    {
        match draw_cards(deck, 1) {
            Some(cards) => {
                let ghost drawn = cards@;
                let outcome = self.open_street(cards);
                assert(old(self)@.street_opened(drawn) == self@);
                Ok(outcome)
            },
            None => Err(GameError::DeckExhausted),
        }
    }
}

} // verus!
